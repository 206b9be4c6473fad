//! First-Come, First-Served.
use vstd::prelude::*;
use vstd::string::*;
use crate::order::{
    arrival_order, is_arrival_order, sort_by_arrival, usize_seq_to_int, arrival_before,
    lemma_arrival_before_order, lemma_arrival_order_distinct, lemma_arrival_order_exists,
    lemma_arrival_order_same_table,
};
use crate::process::{
    Process, valid_processes, within_limits, validation_error, normalized, validate_processes,
    MAX_TICKS, same_table,
};
use crate::timeline::{
    turnaround_covers_service, lemma_metrics_turnaround_at_least_service, ExecutionSlice,
    ScheduleResult, SliceView, slices_view, describes, serves_exactly, build_result, chronological,
    slices_after_arrival, run_time, slices_within, time_bound, runs_in_one_piece,
};

verus! {

/// The first `k` slices of the FCFS timeline along the order `o`, and the
/// time at which the last of them ends: each process starts when the CPU is
/// free and it has arrived, and runs to completion.
pub open spec fn fcfs_prefix(ps: Seq<Process>, o: Seq<int>, k: int) -> (Seq<SliceView>, int)
    decreases k,
{
    if k <= 0 {
        (seq![], 0)
    } else {
        let (s, t) = fcfs_prefix(ps, o, k - 1);
        let p = ps[o[k - 1]];
        let start = if t > p.arrival {
            t
        } else {
            p.arrival as int
        };
        (s.push(SliceView { process: p.name@, start, end: start + p.service }), start + p.service)
    }
}

/// The FCFS timeline of `ps`: processes run to completion in order of arrival.
pub open spec fn fcfs_timeline(ps: Seq<Process>) -> Seq<SliceView> {
    fcfs_prefix(ps, arrival_order(ps), ps.len() as int).0
}

proof fn lemma_fcfs_prefix(ps: Seq<Process>, o: Seq<int>, k: int)
    requires
        valid_processes(ps),
        is_arrival_order(ps, o),
        0 <= k <= ps.len(),
    ensures
        ({
            let (s, t) = fcfs_prefix(ps, o, k);
            &&& s.len() == k
            &&& chronological(s)
            &&& slices_after_arrival(ps, s)
            &&& 0 <= t <= (k + 1) * MAX_TICKS
            &&& forall|j: int| 0 <= j < s.len() ==> (#[trigger] s[j]).end <= t && s[j].start >= 0
            &&& forall|j: int| 0 <= j < k ==> (#[trigger] s[j]).process == ps[o[j]].name@
            &&& forall|i: int|
                0 <= i < ps.len() ==> run_time(s, (#[trigger] ps[i]).name@) == if exists|j: int|
                    0 <= j < k && o[j] == i {
                    ps[i].service as int
                } else {
                    0
                }
        }),
    decreases k,
{
    if k > 0 {
        lemma_fcfs_prefix(ps, o, k - 1);
        let (s0, t0) = fcfs_prefix(ps, o, k - 1);
        let (s, t) = fcfs_prefix(ps, o, k);
        let x = o[k - 1];
        let p = ps[x];
        assert(0 <= x < ps.len());
        assert(s.last() == s[k - 1]);
        assert(s.drop_last() =~= s0);
        assert forall|j: int| 0 <= j < s.len() implies (#[trigger] s[j]).end <= t && s[j].start >= 0 by {
            if j < k - 1 {
                assert(s[j] == s0[j]);
            }
        }
        assert(chronological(s)) by {
            assert forall|a: int, b: int| 0 <= a < b < s.len() implies (#[trigger] s[a]).end <= (
            #[trigger] s[b]).start by {
                if b < k - 1 {
                    assert(s[a] == s0[a] && s[b] == s0[b]);
                } else {
                    assert(s[a] == s0[a]);
                }
            }
            assert forall|a: int| 0 <= a < s.len() implies (#[trigger] s[a]).start < s[a].end by {
                if a < k - 1 {
                    assert(s[a] == s0[a]);
                }
            }
        }
        assert(slices_after_arrival(ps, s)) by {
            assert forall|a: int| 0 <= a < s.len() implies exists|i: int|
                0 <= i < ps.len() && (#[trigger] ps[i]).name@ == (#[trigger] s[a]).process
                    && ps[i].arrival <= s[a].start by {
                if a < k - 1 {
                    assert(s[a] == s0[a]);
                } else {
                    assert(ps[x].name@ == s[a].process);
                }
            }
        }
        assert forall|j: int| 0 <= j < k implies (#[trigger] s[j]).process == ps[o[j]].name@ by {
            if j < k - 1 {
                assert(s[j] == s0[j]);
            }
        }
        assert forall|i: int| 0 <= i < ps.len() implies run_time(s, (#[trigger] ps[i]).name@) == if exists|j: int|
            0 <= j < k && o[j] == i {
            ps[i].service as int
        } else {
            0
        } by {
            if i == x {
                if exists|j: int| 0 <= j < k - 1 && o[j] == i {
                    let j = choose|j: int| 0 <= j < k - 1 && o[j] == i;
                    assert(arrival_before(ps[o[j]], ps[o[k - 1]]));
                    lemma_arrival_before_order(ps[x], ps[x], ps[x]);
                }
                assert(o[k - 1] == i);
            } else {
                assert(ps[i].name@ != ps[x].name@);
                if exists|j: int| 0 <= j < k && o[j] == i {
                    let j = choose|j: int| 0 <= j < k && o[j] == i;
                    assert(j != k - 1);
                    assert(exists|j: int| 0 <= j < k - 1 && o[j] == i);
                }
            }
        }
    }
}

/// In the FCFS timeline of valid processes a process that arrives strictly
/// earlier than another runs before it: its slice comes first and ends by
/// the time the other's starts. Of two that arrive together, the one from
/// the earlier table position runs first.
pub proof fn lemma_fcfs_earlier_arrival_runs_first(ps: Seq<Process>)
    requires
        valid_processes(ps),
    ensures
        ({
            let s = fcfs_timeline(ps);
            forall|k: int, l: int, i: int, j: int|
                #![trigger s[k], s[l], ps[i], ps[j]]
                0 <= k < s.len() && 0 <= l < s.len() && 0 <= i < ps.len() && 0 <= j < ps.len()
                    && s[k].process == ps[i].name@ && s[l].process == ps[j].name@ && (ps[i].arrival
                    < ps[j].arrival || (ps[i].arrival == ps[j].arrival && ps[i].order < ps[j].order))
                    ==> k < l && s[k].end <= s[l].start
        }),
{
    lemma_arrival_order_exists(ps);
    let o = arrival_order(ps);
    lemma_fcfs_prefix(ps, o, ps.len() as int);
    let s = fcfs_timeline(ps);
    assert forall|k: int, l: int, i: int, j: int|
        #![trigger s[k], s[l], ps[i], ps[j]]
        0 <= k < s.len() && 0 <= l < s.len() && 0 <= i < ps.len() && 0 <= j < ps.len()
            && s[k].process == ps[i].name@ && s[l].process == ps[j].name@ && (ps[i].arrival
            < ps[j].arrival || (ps[i].arrival == ps[j].arrival && ps[i].order < ps[j].order))
            implies k < l && s[k].end <= s[l].start by {
        assert(s[k].process == ps[o[k]].name@);
        assert(s[l].process == ps[o[l]].name@);
        assert(o[k] == i) by {
            if o[k] != i {
                assert(ps[o[k]].name@ != ps[i].name@);
            }
        }
        assert(o[l] == j) by {
            if o[l] != j {
                assert(ps[o[l]].name@ != ps[j].name@);
            }
        }
        if l < k {
            assert(arrival_before(ps[o[l]], ps[o[k]]));
        }
        if l == k {
            assert(i == j);
        }
    }
}

proof fn lemma_fcfs_prefix_same_table(a: Seq<Process>, b: Seq<Process>, o: Seq<int>, k: int)
    requires
        same_table(a, b),
        0 <= k <= o.len(),
        forall|m: int| 0 <= m < o.len() ==> 0 <= #[trigger] o[m] < a.len(),
    ensures
        fcfs_prefix(a, o, k) == fcfs_prefix(b, o, k),
    decreases k,
{
    if k > 0 {
        lemma_fcfs_prefix_same_table(a, b, o, k - 1);
        assert(a[o[k - 1]].name@ == b[o[k - 1]].name@);
    }
}

/// The FCFS timeline depends on the names and times of the processes alone.
pub proof fn lemma_fcfs_same_table(a: Seq<Process>, b: Seq<Process>)
    requires
        valid_processes(a),
        same_table(a, b),
    ensures
        fcfs_timeline(a) == fcfs_timeline(b),
{
    lemma_arrival_order_same_table(a, b);
    lemma_arrival_order_exists(a);
    lemma_fcfs_prefix_same_table(a, b, arrival_order(a), a.len() as int);
}

/// The FCFS timeline of valid processes runs every process once, for its
/// whole service time, after it arrives, one at a time.
pub proof fn lemma_fcfs_serves_exactly(ps: Seq<Process>)
    requires
        valid_processes(ps),
        exists|o: Seq<int>| is_arrival_order(ps, o),
    ensures
        serves_exactly(ps, fcfs_timeline(ps)),
        runs_in_one_piece(fcfs_timeline(ps)),
        fcfs_timeline(ps).len() == ps.len(),
        slices_within(fcfs_timeline(ps), time_bound()),
{
    let o = arrival_order(ps);
    lemma_fcfs_prefix(ps, o, ps.len() as int);
    let s = fcfs_timeline(ps);
    assert forall|i: int| 0 <= i < ps.len() implies run_time(s, (#[trigger] ps[i]).name@) == ps[i].service by {
        assert(o.contains(i));
        let j = choose|j: int| 0 <= j < o.len() && o[j] == i;
        assert(exists|j: int| 0 <= j < ps.len() && o[j] == i);
    }
    assert forall|k1: int, k2: int| 0 <= k1 < k2 < s.len() implies (#[trigger] s[k1]).process
        != (#[trigger] s[k2]).process by {
        lemma_arrival_order_distinct(ps, o, k1, k2);
        assert(s[k1].process == ps[o[k1]].name@);
        assert(s[k2].process == ps[o[k2]].name@);
    }
}

/// Runs FCFS: processes run to completion in order of arrival.
pub fn schedule_fcfs(processes: &[Process]) -> (r: Result<ScheduleResult, String>)
    requires
        within_limits(processes@),
    ensures
        r is Ok <==> validation_error(processes@) is None,
        r matches Err(m) ==> validation_error(processes@) == Some(m@),
        r matches Ok(res) ==> exists|checked: Seq<Process>|
            normalized(processes@, checked) && valid_processes(checked) && describes(res, "FCFS"@, checked, fcfs_timeline(checked))
                && serves_exactly(checked, slices_view(res.slices@))
                && turnaround_covers_service(res.metrics@) && runs_in_one_piece(
                slices_view(res.slices@),
            ),
{
    let checked = match validate_processes(processes) {
        Ok(v) => v,
        Err(e) => return Err(e),
    };
    let slices = run_fcfs(&checked);
    let res = build_result(String::from_str("FCFS"), &checked, slices);
    proof {
        lemma_metrics_turnaround_at_least_service(res, res.algorithm@, checked@, slices_view(res.slices@));
    }
    Ok(res)
}

/// The FCFS timeline of validated processes.
pub(crate) fn run_fcfs(checked: &Vec<Process>) -> (slices: Vec<ExecutionSlice>)
    requires
        valid_processes(checked@),
    ensures
        slices_view(slices@) == fcfs_timeline(checked@),
        serves_exactly(checked@, slices_view(slices@)),
        runs_in_one_piece(slices_view(slices@)),
        slices_within(slices_view(slices@), time_bound()),
{
    let ghost ps = checked@;
    let ordered = sort_by_arrival(checked);
    let ghost o = usize_seq_to_int(ordered@);
    let mut time: i64 = 0;
    let mut slices: Vec<ExecutionSlice> = Vec::new();
    let n = ordered.len();
    let mut k: usize = 0;
    while k < n
        invariant
            ps == checked@,
            valid_processes(ps),
            o == arrival_order(ps),
            is_arrival_order(ps, o),
            o == usize_seq_to_int(ordered@),
            n == ps.len(),
            0 <= k <= n,
            fcfs_prefix(ps, o, k as int) == (slices_view(slices@), time as int),
        decreases n - k,
    {
        proof {
            lemma_fcfs_prefix(ps, o, k as int);
            lemma_fcfs_prefix(ps, o, k + 1);
            assert(o[k as int] == ordered@[k as int] as int);
        }
        let process = &checked[ordered[k]];
        let start = if time > process.arrival {
            time
        } else {
            process.arrival
        };
        let end = start + process.service;
        slices.push(ExecutionSlice { process: process.name.clone(), start, end });
        time = end;
        k = k + 1;
        proof {
            let (s, t) = fcfs_prefix(ps, o, k as int);
            assert(slices_view(slices@) =~= s);
        }
    }
    proof {
        lemma_fcfs_serves_exactly(ps);
    }
    slices
}

} // verus!
