//! Non-preemptive priority scheduling: Shortest Process Next and Highest
//! Response Ratio Next.
use vstd::prelude::*;
use vstd::string::*;
use crate::order::{arrival_before, arrives_before, lemma_arrival_before_order};
use crate::process::{
    Process, valid_processes, within_limits, validation_error, normalized, validate_processes,
    MAX_TICKS, same_table, lemma_same_table_valid,
};
use crate::timeline::{
    turnaround_covers_service, lemma_metrics_turnaround_at_least_service, ExecutionSlice,
    ScheduleResult, SliceView, slices_view, describes, serves_exactly, build_result, chronological,
    slices_after_arrival, run_time, slices_within, time_bound, runs_in_one_piece,
    lemma_run_time_positive,
};

verus! {

/// How the next process is picked among those that have arrived.
#[derive(Clone, Copy, PartialEq, Eq)]
pub enum Priority {
    /// Shortest service time first.
    ShortestNext,
    /// Highest response ratio `(waiting + service) / service` first.
    HighestRatio,
}

/// At time `t`, `a` is picked before `b`: by the policy's measure, then in
/// order of arrival.
pub open spec fn picked_before(pol: Priority, t: int, a: Process, b: Process) -> bool {
    match pol {
        Priority::ShortestNext => a.service < b.service || (a.service == b.service
            && arrival_before(a, b)),
        Priority::HighestRatio => {
            let ra = (t - a.arrival + a.service) * b.service;
            let rb = (t - b.arrival + b.service) * a.service;
            ra > rb || (ra == rb && arrival_before(a, b))
        },
    }
}

/// Process `i` has arrived by `t` and has not run yet.
pub open spec fn is_ready(ps: Seq<Process>, done: Seq<bool>, t: int, i: int) -> bool {
    0 <= i < ps.len() && !done[i] && ps[i].arrival <= t
}

/// Process `i` is the one picked at time `t`: it is ready and picked before
/// every other ready process.
pub open spec fn is_pick(ps: Seq<Process>, pol: Priority, done: Seq<bool>, t: int, i: int) -> bool {
    &&& is_ready(ps, done, t, i)
    &&& forall|j: int| #[trigger]
        is_ready(ps, done, t, j) && j != i ==> picked_before(pol, t, ps[i], ps[j])
}

/// The process picked at time `t`.
pub open spec fn pick(ps: Seq<Process>, pol: Priority, done: Seq<bool>, t: int) -> int {
    choose|i: int| is_pick(ps, pol, done, t, i)
}

/// The earliest arrival among the first `k` processes that have not run.
pub open spec fn earliest_pending(ps: Seq<Process>, done: Seq<bool>, k: int) -> Option<int>
    decreases k,
{
    if k <= 0 {
        None
    } else {
        let e = earliest_pending(ps, done, k - 1);
        if done[k - 1] {
            e
        } else {
            match e {
                Some(a) => if ps[k - 1].arrival < a {
                    Some(ps[k - 1].arrival as int)
                } else {
                    Some(a)
                },
                None => Some(ps[k - 1].arrival as int),
            }
        }
    }
}

/// When the next process starts if the CPU is free from `t`: at `t`, or,
/// when nothing has arrived by then, at the next arrival.
pub open spec fn dispatch_time(ps: Seq<Process>, done: Seq<bool>, t: int) -> int {
    match earliest_pending(ps, done, ps.len() as int) {
        Some(a) => if a > t {
            a
        } else {
            t
        },
        None => t,
    }
}

/// Runs `steps` more processes, each to completion, from time `t`, after
/// the timeline `acc`.
pub open spec fn priority_run(
    ps: Seq<Process>,
    pol: Priority,
    done: Seq<bool>,
    t: int,
    acc: Seq<SliceView>,
    steps: nat,
) -> Seq<SliceView>
    decreases steps,
{
    if steps == 0 {
        acc
    } else {
        let start = dispatch_time(ps, done, t);
        let i = pick(ps, pol, done, start);
        let end = start + ps[i].service;
        priority_run(
            ps,
            pol,
            done.update(i, true),
            end,
            acc.push(SliceView { process: ps[i].name@, start, end }),
            (steps - 1) as nat,
        )
    }
}

/// The timeline of `ps` under the policy `pol`.
pub open spec fn priority_timeline(ps: Seq<Process>, pol: Priority) -> Seq<SliceView> {
    priority_run(ps, pol, Seq::new(ps.len(), |i: int| false), 0, seq![], ps.len())
}

/// The number of processes that have run.
pub open spec fn count_done(done: Seq<bool>) -> int
    decreases done.len(),
{
    if done.len() == 0 {
        0
    } else {
        count_done(done.drop_last()) + if done.last() {
            1int
        } else {
            0
        }
    }
}

proof fn lemma_count_done(done: Seq<bool>, i: int)
    requires
        0 <= i < done.len(),
        !done[i],
    ensures
        count_done(done.update(i, true)) == count_done(done) + 1,
        0 <= count_done(done) < done.len(),
    decreases done.len(),
{
    if i < done.len() - 1 {
        assert(done.update(i, true).drop_last() =~= done.drop_last().update(i, true));
        lemma_count_done(done.drop_last(), i);
    } else {
        assert(done.update(i, true).drop_last() =~= done.drop_last());
        lemma_count_bounds(done.drop_last());
    }
}

proof fn lemma_count_bounds(done: Seq<bool>)
    ensures
        0 <= count_done(done) <= done.len(),
        count_done(done) == done.len() ==> forall|i: int| 0 <= i < done.len() ==> done[i],
    decreases done.len(),
{
    if done.len() > 0 {
        lemma_count_bounds(done.drop_last());
        if count_done(done) == done.len() {
            assert forall|i: int| 0 <= i < done.len() implies done[i] by {
                if i < done.len() - 1 {
                    assert(done[i] == done.drop_last()[i]);
                }
            }
        }
    }
}

proof fn lemma_count_zero(n: nat)
    ensures
        count_done(Seq::new(n, |i: int| false)) == 0,
    decreases n,
{
    if n > 0 {
        assert(Seq::new(n, |i: int| false).drop_last() =~= Seq::new((n - 1) as nat, |i: int| false));
        lemma_count_zero((n - 1) as nat);
    }
}

/// At any time, `picked_before` orders processes with distinct names
/// strictly and totally.
pub proof fn lemma_picked_before_order(pol: Priority, t: int, a: Process, b: Process, c: Process)
    requires
        a.service > 0,
        b.service > 0,
        c.service > 0,
    ensures
        !picked_before(pol, t, a, a),
        !(picked_before(pol, t, a, b) && picked_before(pol, t, b, a)),
        a.name@ != b.name@ ==> picked_before(pol, t, a, b) || picked_before(pol, t, b, a),
        picked_before(pol, t, a, b) && picked_before(pol, t, b, c) ==> picked_before(pol, t, a, c),
{
    lemma_arrival_before_order(a, b, c);
    lemma_arrival_before_order(a, a, a);
    match pol {
        Priority::ShortestNext => {},
        Priority::HighestRatio => {
            let ra = t - a.arrival + a.service;
            let rb = t - b.arrival + b.service;
            let rc = t - c.arrival + c.service;
            let sa = a.service as int;
            let sb = b.service as int;
            let sc = c.service as int;
            lemma_ratio_transitive(ra, sa, rb, sb, rc, sc);
        },
    }
}

proof fn lemma_ratio_transitive(ra: int, sa: int, rb: int, sb: int, rc: int, sc: int)
    requires
        sa > 0,
        sb > 0,
        sc > 0,
    ensures
        ra * sb >= rb * sa && rb * sc >= rc * sb ==> ra * sc >= rc * sa,
        ra * sb > rb * sa && rb * sc >= rc * sb ==> ra * sc > rc * sa,
        ra * sb >= rb * sa && rb * sc > rc * sb ==> ra * sc > rc * sa,
{
    if ra * sb >= rb * sa && rb * sc >= rc * sb {
        assert(ra * sb * sc >= rb * sa * sc) by (nonlinear_arith)
            requires
                ra * sb >= rb * sa,
                sc > 0,
        ;
        assert(rb * sc * sa >= rc * sb * sa) by (nonlinear_arith)
            requires
                rb * sc >= rc * sb,
                sa > 0,
        ;
        assert(ra * sc * sb >= rc * sa * sb) by (nonlinear_arith)
            requires
                ra * sb * sc >= rb * sa * sc,
                rb * sc * sa >= rc * sb * sa,
        ;
        assert(ra * sc >= rc * sa) by (nonlinear_arith)
            requires
                ra * sc * sb >= rc * sa * sb,
                sb > 0,
        ;
        if ra * sb > rb * sa || rb * sc > rc * sb {
            if ra * sb > rb * sa {
                assert(ra * sb * sc > rb * sa * sc) by (nonlinear_arith)
                    requires
                        ra * sb > rb * sa,
                        sc > 0,
                ;
            } else {
                assert(rb * sc * sa > rc * sb * sa) by (nonlinear_arith)
                    requires
                        rb * sc > rc * sb,
                        sa > 0,
                ;
            }
            assert(ra * sc * sb > rc * sa * sb) by (nonlinear_arith)
                requires
                    ra * sb * sc >= rb * sa * sc,
                    rb * sc * sa >= rc * sb * sa,
                    ra * sb * sc > rb * sa * sc || rb * sc * sa > rc * sb * sa,
            ;
            assert(ra * sc > rc * sa) by (nonlinear_arith)
                requires
                    ra * sc * sb > rc * sa * sb,
                    sb > 0,
            ;
        }
    }
}

/// `a` is picked before `b` at time `t`.
fn picks_before(pol: Priority, t: i64, a: &Process, b: &Process) -> (r: bool)
    requires
        0 <= t <= time_bound(),
        0 <= a.arrival <= t,
        0 <= b.arrival <= t,
        a.arrival <= MAX_TICKS,
        b.arrival <= MAX_TICKS,
        0 < a.service <= MAX_TICKS,
        0 < b.service <= MAX_TICKS,
    ensures
        r == picked_before(pol, t as int, *a, *b),
{
    match pol {
        Priority::ShortestNext => {
            if a.service != b.service {
                a.service < b.service
            } else {
                arrives_before(a, b)
            }
        },
        Priority::HighestRatio => {
            let wa = (t - a.arrival + a.service) as i128;
            let wb = (t - b.arrival + b.service) as i128;
            let sa = a.service as i128;
            let sb = b.service as i128;
            assert(0 <= wa * sb <= 9_223_372_036_854_775_807 * 1_099_511_627_776) by (nonlinear_arith)
                requires
                    0 <= wa <= 9_223_372_036_854_775_807,
                    0 < sb <= 1_099_511_627_776,
            ;
            assert(0 <= wb * sa <= 9_223_372_036_854_775_807 * 1_099_511_627_776) by (nonlinear_arith)
                requires
                    0 <= wb <= 9_223_372_036_854_775_807,
                    0 < sa <= 1_099_511_627_776,
            ;
            let ra = wa * sb;
            let rb = wb * sa;
            if ra != rb {
                ra > rb
            } else {
                arrives_before(a, b)
            }
        },
    }
}

proof fn lemma_pick_unique(ps: Seq<Process>, pol: Priority, done: Seq<bool>, t: int, i: int)
    requires
        valid_processes(ps),
        done.len() == ps.len(),
        is_pick(ps, pol, done, t, i),
    ensures
        pick(ps, pol, done, t) == i,
{
    let c = pick(ps, pol, done, t);
    assert(is_pick(ps, pol, done, t, c));
    if c != i {
        assert(is_ready(ps, done, t, c));
        assert(is_ready(ps, done, t, i));
        lemma_picked_before_order(pol, t, ps[i], ps[c], ps[c]);
    }
}

proof fn lemma_earliest_pending(ps: Seq<Process>, done: Seq<bool>, k: int)
    requires
        0 <= k <= ps.len(),
        done.len() == ps.len(),
    ensures
        match earliest_pending(ps, done, k) {
            Some(a) => (exists|i: int| 0 <= i < k && !done[i] && ps[i].arrival == a) && forall|i: int|
                0 <= i < k && !done[i] ==> a <= #[trigger] ps[i].arrival,
            None => forall|i: int| 0 <= i < k ==> #[trigger] done[i],
        },
    decreases k,
{
    if k > 0 {
        lemma_earliest_pending(ps, done, k - 1);
    }
}

/// Schedules the validated `processes` under the policy `pol`.
pub(crate) fn schedule_by_priority(processes: &Vec<Process>, pol: Priority) -> (slices: Vec<ExecutionSlice>)
    requires
        valid_processes(processes@),
    ensures
        slices_view(slices@) == priority_timeline(processes@, pol),
        serves_exactly(processes@, slices_view(slices@)),
        runs_in_one_piece(slices_view(slices@)),
        slices_view(slices@).len() == processes@.len(),
        slices_within(slices_view(slices@), time_bound()),
{
    let ghost ps = processes@;
    let n = processes.len();
    let mut done: Vec<bool> = Vec::new();
    while done.len() < n
        invariant
            done@.len() <= n,
            forall|i: int| 0 <= i < done@.len() ==> !done@[i],
        decreases n - done@.len(),
    {
        done.push(false);
    }
    assert(done@ =~= Seq::new(ps.len(), |i: int| false));
    proof {
        lemma_count_zero(ps.len());
    }
    let mut time: i64 = 0;
    let mut slices: Vec<ExecutionSlice> = Vec::new();
    assert(slices_view(slices@) =~= seq![]);
    let mut k: usize = 0;
    while k < n
        invariant
            ps == processes@,
            valid_processes(ps),
            n == ps.len(),
            done@.len() == n,
            0 <= k <= n,
            count_done(done@) == k,
            0 <= time <= (k + 1) * MAX_TICKS,
            priority_run(ps, pol, done@, time as int, slices_view(slices@), (n - k) as nat)
                == priority_timeline(ps, pol),
            slices_view(slices@).len() == k,
            chronological(slices_view(slices@)),
            slices_after_arrival(ps, slices_view(slices@)),
            slices_within(slices_view(slices@), time as int),
            runs_in_one_piece(slices_view(slices@)),
            forall|i: int|
                0 <= i < n ==> run_time(slices_view(slices@), (#[trigger] ps[i]).name@) == if done@[i] {
                    ps[i].service as int
                } else {
                    0
                },
        decreases n - k,
    {
        proof {
            lemma_count_bounds(done@);
            lemma_earliest_pending(ps, done@, n as int);
        }
        // the earliest arrival among the processes that have not run
        let mut earliest: Option<i64> = None;
        let mut j: usize = 0;
        while j < n
            invariant
                0 <= j <= n,
                n == ps.len(),
                ps == processes@,
                done@.len() == n,
                match earliest_pending(ps, done@, j as int) {
                    Some(a) => earliest == Some(a as i64) && a == earliest.unwrap() as int,
                    None => earliest is None,
                },
            decreases n - j,
        {
            if !done[j] {
                earliest = match earliest {
                    Some(a) => if processes[j].arrival < a {
                        Some(processes[j].arrival)
                    } else {
                        Some(a)
                    },
                    None => Some(processes[j].arrival),
                };
            }
            j = j + 1;
        }
        let start = match earliest {
            Some(a) => if a > time {
                a
            } else {
                time
            },
            None => time,
        };
        assert(start == dispatch_time(ps, done@, time as int));
        proof {
            if earliest is None {
                assert(forall|i: int| 0 <= i < n ==> #[trigger] done@[i]);
                lemma_count_all(done@);
            }
        }
        // the ready process picked first
        let mut best: usize = n;
        let mut i: usize = 0;
        while i < n
            invariant
                0 <= i <= n,
                n == ps.len(),
                ps == processes@,
                valid_processes(ps),
                done@.len() == n,
                0 <= start <= time_bound(),
                best == n || (best < i && is_ready(ps, done@, start as int, best as int)),
                best == n ==> forall|m: int| 0 <= m < i ==> !is_ready(ps, done@, start as int, m),
                best < n ==> forall|m: int|
                    0 <= m < i && m != best && #[trigger] is_ready(ps, done@, start as int, m)
                        ==> picked_before(pol, start as int, ps[best as int], ps[m]),
            decreases n - i,
        {
            if !done[i] && processes[i].arrival <= start {
                let better = best == n || picks_before(pol, start, &processes[i], &processes[best]);
                proof {
                    if best < n {
                        lemma_picked_before_order(
                            pol,
                            start as int,
                            ps[i as int],
                            ps[best as int],
                            ps[best as int],
                        );
                        assert(ps[i as int].name@ != ps[best as int].name@);
                        assert forall|m: int|
                            0 <= m < i + 1 && m != (if better { i } else { best }) && #[trigger] is_ready(
                                ps,
                                done@,
                                start as int,
                                m,
                            ) implies picked_before(
                            pol,
                            start as int,
                            ps[(if better { i } else { best }) as int],
                            ps[m],
                        ) by {
                            if better && m != best && m < i {
                                lemma_picked_before_order(
                                    pol,
                                    start as int,
                                    ps[i as int],
                                    ps[best as int],
                                    ps[m],
                                );
                            }
                        }
                    }
                }
                if better {
                    best = i;
                }
            }
            i = i + 1;
        }
        proof {
            // something has arrived by `start`
            let e = earliest_pending(ps, done@, n as int).unwrap();
            let w = choose|w: int| 0 <= w < n && !done@[w] && ps[w].arrival == e;
            assert(is_ready(ps, done@, start as int, w));
            assert(best < n);
            lemma_pick_unique(ps, pol, done@, start as int, best as int);
            lemma_count_done(done@, best as int);
        }
        let process = &processes[best];
        let end = start + process.service;
        let ghost old_slices = slices_view(slices@);
        let ghost old_done = done@;
        slices.push(ExecutionSlice { process: process.name.clone(), start, end });
        done.set(best, true);
        time = end;
        k = k + 1;
        proof {
            let s = slices_view(slices@);
            let slice = SliceView { process: ps[best as int].name@, start: start as int, end: end as int };
            assert(s =~= old_slices.push(slice));
            assert(s.last() == slice);
            assert(s.drop_last() =~= old_slices);
            assert forall|a: int, b: int| 0 <= a < b < s.len() implies (#[trigger] s[a]).end <= (
            #[trigger] s[b]).start by {
                assert(s[a] == old_slices[a]);
                if b < s.len() - 1 {
                    assert(s[b] == old_slices[b]);
                }
            }
            assert forall|a: int| 0 <= a < s.len() implies (#[trigger] s[a]).start < s[a].end by {
                if a < s.len() - 1 {
                    assert(s[a] == old_slices[a]);
                }
            }
            assert forall|a: int| 0 <= a < s.len() implies exists|x: int|
                0 <= x < ps.len() && (#[trigger] ps[x]).name@ == (#[trigger] s[a]).process
                    && ps[x].arrival <= s[a].start by {
                if a < s.len() - 1 {
                    assert(s[a] == old_slices[a]);
                } else {
                    assert(ps[best as int].name@ == s[a].process);
                }
            }
            assert forall|a: int| 0 <= a < s.len() implies 0 <= (#[trigger] s[a]).start <= s[a].end
                <= time by {
                if a < s.len() - 1 {
                    assert(s[a] == old_slices[a]);
                }
            }
            assert(runs_in_one_piece(s)) by {
                assert forall|k1: int, k2: int| 0 <= k1 < k2 < s.len() implies (#[trigger] s[k1]).process
                    != (#[trigger] s[k2]).process by {
                    assert(s[k1] == old_slices[k1]);
                    if k2 < s.len() - 1 {
                        assert(s[k2] == old_slices[k2]);
                    } else if s[k1].process == s[k2].process {
                        lemma_run_time_positive(old_slices, ps[best as int].name@, k1);
                    }
                }
            }
            assert forall|x: int| 0 <= x < n implies run_time(s, (#[trigger] ps[x]).name@) == if done@[x] {
                ps[x].service as int
            } else {
                0
            } by {
                if x != best {
                    assert(ps[x].name@ != ps[best as int].name@);
                }
            }
        }
    }
    proof {
        lemma_count_bounds(done@);
        let s = slices_view(slices@);
        assert forall|x: int| 0 <= x < ps.len() implies run_time(s, (#[trigger] ps[x]).name@)
            == ps[x].service by {
            assert(done@[x]);
        }
        assert(slices_within(s, time_bound()));
    }
    slices
}

proof fn lemma_count_all(done: Seq<bool>)
    requires
        forall|i: int| 0 <= i < done.len() ==> #[trigger] done[i],
    ensures
        count_done(done) == done.len(),
    decreases done.len(),
{
    if done.len() > 0 {
        lemma_count_all(done.drop_last());
    }
}

proof fn lemma_pick_best_upto(ps: Seq<Process>, pol: Priority, done: Seq<bool>, t: int, w: int, k: int) -> (b: int)
    requires
        valid_processes(ps),
        done.len() == ps.len(),
        is_ready(ps, done, t, w),
        0 <= k <= ps.len(),
    ensures
        is_ready(ps, done, t, b),
        forall|j: int|
            0 <= j < k && #[trigger] is_ready(ps, done, t, j) && j != b ==> picked_before(
                pol,
                t,
                ps[b],
                ps[j],
            ),
    decreases k,
{
    if k == 0 {
        w
    } else {
        let b0 = lemma_pick_best_upto(ps, pol, done, t, w, k - 1);
        let j = k - 1;
        if is_ready(ps, done, t, j) && j != b0 && picked_before(pol, t, ps[j], ps[b0]) {
            assert forall|m: int|
                0 <= m < k && #[trigger] is_ready(ps, done, t, m) && m != j implies picked_before(
                pol,
                t,
                ps[j],
                ps[m],
            ) by {
                if m != b0 {
                    lemma_picked_before_order(pol, t, ps[j], ps[b0], ps[m]);
                }
            }
            j
        } else {
            if is_ready(ps, done, t, j) && j != b0 {
                assert(ps[j].name@ != ps[b0].name@);
                lemma_picked_before_order(pol, t, ps[j], ps[b0], ps[b0]);
            }
            b0
        }
    }
}

proof fn lemma_earliest_pending_same_table(a: Seq<Process>, b: Seq<Process>, done: Seq<bool>, k: int)
    requires
        same_table(a, b),
        0 <= k <= a.len(),
    ensures
        earliest_pending(a, done, k) == earliest_pending(b, done, k),
    decreases k,
{
    if k > 0 {
        lemma_earliest_pending_same_table(a, b, done, k - 1);
        assert(a[k - 1].arrival == b[k - 1].arrival);
    }
}

proof fn lemma_priority_run_same_table(
    a: Seq<Process>,
    b: Seq<Process>,
    pol: Priority,
    done: Seq<bool>,
    t: int,
    acc: Seq<SliceView>,
    steps: nat,
)
    requires
        valid_processes(a),
        same_table(a, b),
        done.len() == a.len(),
        count_done(done) + steps <= a.len(),
    ensures
        priority_run(a, pol, done, t, acc, steps) == priority_run(b, pol, done, t, acc, steps),
    decreases steps,
{
    if steps > 0 {
        let n = a.len();
        lemma_same_table_valid(a, b);
        if forall|i: int| 0 <= i < n ==> #[trigger] done[i] {
            lemma_count_all(done);
        }
        lemma_earliest_pending(a, done, n as int);
        lemma_earliest_pending_same_table(a, b, done, n as int);
        let start = dispatch_time(a, done, t);
        assert(start == dispatch_time(b, done, t));
        let e = earliest_pending(a, done, n as int).unwrap();
        let w = choose|i: int| 0 <= i < n && !done[i] && a[i].arrival == e;
        assert(is_ready(a, done, start, w));
        let bst = lemma_pick_best_upto(a, pol, done, start, w, n as int);
        assert(is_pick(a, pol, done, start, bst));
        lemma_pick_unique(a, pol, done, start, bst);
        assert(is_pick(b, pol, done, start, bst)) by {
            assert forall|j: int| #[trigger] is_ready(b, done, start, j) && j != bst implies picked_before(
                pol,
                start,
                b[bst],
                b[j],
            ) by {
                assert(a[j].arrival == b[j].arrival);
                assert(is_ready(a, done, start, j));
                assert(a[bst].name@ == b[bst].name@ && a[j].name@ == b[j].name@);
            }
        }
        lemma_pick_unique(b, pol, done, start, bst);
        assert(a[bst].name@ == b[bst].name@);
        lemma_count_done(done, bst);
        let end = start + a[bst].service;
        lemma_priority_run_same_table(
            a,
            b,
            pol,
            done.update(bst, true),
            end,
            acc.push(SliceView { process: a[bst].name@, start, end }),
            (steps - 1) as nat,
        );
    }
}

/// The timeline under a policy depends on the names and times of the
/// processes alone.
pub proof fn lemma_priority_same_table(a: Seq<Process>, b: Seq<Process>, pol: Priority)
    requires
        valid_processes(a),
        same_table(a, b),
    ensures
        priority_timeline(a, pol) == priority_timeline(b, pol),
{
    assert(Seq::new(a.len(), |i: int| false) =~= Seq::new(b.len(), |i: int| false));
    lemma_count_zero(a.len());
    lemma_priority_run_same_table(a, b, pol, Seq::new(a.len(), |i: int| false), 0, seq![], a.len());
}

/// What a run from `done` adds to `acc`: one slice per step, each of a
/// process that had not run, picked before every other process that had
/// arrived by its start and runs later.
proof fn lemma_priority_run_picks(
    ps: Seq<Process>,
    pol: Priority,
    done: Seq<bool>,
    t: int,
    acc: Seq<SliceView>,
    steps: nat,
)
    requires
        valid_processes(ps),
        done.len() == ps.len(),
        count_done(done) + steps <= ps.len(),
    ensures
        ({
            let r = priority_run(ps, pol, done, t, acc, steps);
            &&& r.len() == acc.len() + steps
            &&& forall|m: int| 0 <= m < acc.len() ==> #[trigger] r[m] == acc[m]
            &&& forall|m: int, j: int|
                acc.len() <= m < r.len() && 0 <= j < ps.len() && (#[trigger] r[m]).process == (
                #[trigger] ps[j]).name@ ==> !done[j]
            &&& forall|k: int, l: int, i: int, j: int|
                #![trigger r[k], r[l], ps[i], ps[j]]
                acc.len() <= k < l < r.len() && 0 <= i < ps.len() && 0 <= j < ps.len() && i != j
                    && r[k].process == ps[i].name@ && r[l].process == ps[j].name@ && ps[j].arrival
                    <= r[k].start ==> picked_before(pol, r[k].start, ps[i], ps[j])
        }),
    decreases steps,
{
    if steps > 0 {
        let n = ps.len();
        if forall|i: int| 0 <= i < n ==> #[trigger] done[i] {
            lemma_count_all(done);
        }
        lemma_earliest_pending(ps, done, n as int);
        let start = dispatch_time(ps, done, t);
        let e = earliest_pending(ps, done, n as int).unwrap();
        let w = choose|i: int| 0 <= i < n && !done[i] && ps[i].arrival == e;
        assert(is_ready(ps, done, start, w));
        let bst = lemma_pick_best_upto(ps, pol, done, start, w, n as int);
        assert(is_pick(ps, pol, done, start, bst));
        lemma_pick_unique(ps, pol, done, start, bst);
        lemma_count_done(done, bst);
        let end = start + ps[bst].service;
        let slice0 = SliceView { process: ps[bst].name@, start, end };
        let done2 = done.update(bst, true);
        let acc2 = acc.push(slice0);
        lemma_priority_run_picks(ps, pol, done2, end, acc2, (steps - 1) as nat);
        let r = priority_run(ps, pol, done, t, acc, steps);
        assert(r == priority_run(ps, pol, done2, end, acc2, (steps - 1) as nat));
        let a = acc.len() as int;
        assert(r[a] == acc2[a]);
        assert forall|m: int| 0 <= m < acc.len() implies #[trigger] r[m] == acc[m] by {
            assert(r[m] == acc2[m]);
        }
        assert forall|m: int, j: int|
            acc.len() <= m < r.len() && 0 <= j < ps.len() && (#[trigger] r[m]).process == (
            #[trigger] ps[j]).name@ implies !done[j] by {
            if m == a {
                if j != bst {
                    assert(ps[j].name@ != ps[bst].name@);
                }
            } else {
                assert(!done2[j]);
            }
        }
        assert forall|k: int, l: int, i: int, j: int|
            #![trigger r[k], r[l], ps[i], ps[j]]
            acc.len() <= k < l < r.len() && 0 <= i < ps.len() && 0 <= j < ps.len() && i != j
                && r[k].process == ps[i].name@ && r[l].process == ps[j].name@ && ps[j].arrival
                <= r[k].start implies picked_before(pol, r[k].start, ps[i], ps[j]) by {
            if k == a {
                if i != bst {
                    assert(ps[i].name@ != ps[bst].name@);
                }
                assert(!done2[j]);
                assert(is_ready(ps, done, start, j));
            }
        }
    }
}

/// The timeline of `ps` under `pol` as picks: a process that runs later but
/// had already arrived when an earlier one started was picked after it.
proof fn lemma_priority_timeline_picks(ps: Seq<Process>, pol: Priority)
    requires
        valid_processes(ps),
    ensures
        ({
            let s = priority_timeline(ps, pol);
            forall|k: int, l: int, i: int, j: int|
                #![trigger s[k], s[l], ps[i], ps[j]]
                0 <= k < l < s.len() && 0 <= i < ps.len() && 0 <= j < ps.len() && i != j
                    && s[k].process == ps[i].name@ && s[l].process == ps[j].name@ && ps[j].arrival
                    <= s[k].start ==> picked_before(pol, s[k].start, ps[i], ps[j])
        }),
{
    lemma_count_zero(ps.len());
    lemma_priority_run_picks(ps, pol, Seq::new(ps.len(), |i: int| false), 0, seq![], ps.len());
}

/// Under Shortest Process Next, whenever a process starts, no process that
/// has arrived by then and runs later has a shorter service time, and one
/// with the same service time arrived no earlier (or, arriving together,
/// stands no earlier in the table).
pub proof fn lemma_spn_shortest_first(ps: Seq<Process>)
    requires
        valid_processes(ps),
    ensures
        ({
            let s = priority_timeline(ps, Priority::ShortestNext);
            forall|k: int, l: int, i: int, j: int|
                #![trigger s[k], s[l], ps[i], ps[j]]
                0 <= k < l < s.len() && 0 <= i < ps.len() && 0 <= j < ps.len() && s[k].process
                    == ps[i].name@ && s[l].process == ps[j].name@ && ps[j].arrival <= s[k].start
                    ==> ps[i].service <= ps[j].service && (ps[i].service == ps[j].service
                    ==> ps[i].arrival <= ps[j].arrival && (ps[i].arrival == ps[j].arrival
                    ==> ps[i].order <= ps[j].order))
        }),
{
    lemma_priority_timeline_picks(ps, Priority::ShortestNext);
}

/// Under Highest Response Ratio Next, whenever a process starts, no process
/// that has arrived by then and runs later has a higher response ratio
/// `(waiting + service) / service` at that time.
pub proof fn lemma_hrrn_highest_ratio_first(ps: Seq<Process>)
    requires
        valid_processes(ps),
    ensures
        ({
            let s = priority_timeline(ps, Priority::HighestRatio);
            forall|k: int, l: int, i: int, j: int|
                #![trigger s[k], s[l], ps[i], ps[j]]
                0 <= k < l < s.len() && 0 <= i < ps.len() && 0 <= j < ps.len() && s[k].process
                    == ps[i].name@ && s[l].process == ps[j].name@ && ps[j].arrival <= s[k].start
                    ==> (s[k].start - ps[i].arrival + ps[i].service) * ps[j].service >= (s[k].start
                    - ps[j].arrival + ps[j].service) * ps[i].service
        }),
{
    lemma_priority_timeline_picks(ps, Priority::HighestRatio);
}

/// Runs Shortest Process Next: whenever the CPU is free, the arrived
/// process with the shortest service time runs to completion.
pub fn schedule_spn(processes: &[Process]) -> (r: Result<ScheduleResult, String>)
    requires
        within_limits(processes@),
    ensures
        r is Ok <==> validation_error(processes@) is None,
        r matches Err(m) ==> validation_error(processes@) == Some(m@),
        r matches Ok(res) ==> exists|checked: Seq<Process>|
            normalized(processes@, checked) && valid_processes(checked) && describes(
                res,
                "SPN"@,
                checked,
                priority_timeline(checked, Priority::ShortestNext),
            ) && serves_exactly(checked, slices_view(res.slices@))
                && turnaround_covers_service(res.metrics@) && runs_in_one_piece(
                slices_view(res.slices@),
            ),
{
    let checked = match validate_processes(processes) {
        Ok(v) => v,
        Err(e) => return Err(e),
    };
    let slices = schedule_by_priority(&checked, Priority::ShortestNext);
    let res = build_result(String::from_str("SPN"), &checked, slices);
    proof {
        lemma_metrics_turnaround_at_least_service(res, res.algorithm@, checked@, slices_view(res.slices@));
    }
    Ok(res)
}

/// Runs Highest Response Ratio Next: whenever the CPU is free, the arrived
/// process with the highest `(waiting + service) / service` runs to
/// completion.
pub fn schedule_hrrn(processes: &[Process]) -> (r: Result<ScheduleResult, String>)
    requires
        within_limits(processes@),
    ensures
        r is Ok <==> validation_error(processes@) is None,
        r matches Err(m) ==> validation_error(processes@) == Some(m@),
        r matches Ok(res) ==> exists|checked: Seq<Process>|
            normalized(processes@, checked) && valid_processes(checked) && describes(
                res,
                "HRRN"@,
                checked,
                priority_timeline(checked, Priority::HighestRatio),
            ) && serves_exactly(checked, slices_view(res.slices@))
                && turnaround_covers_service(res.metrics@) && runs_in_one_piece(
                slices_view(res.slices@),
            ),
{
    let checked = match validate_processes(processes) {
        Ok(v) => v,
        Err(e) => return Err(e),
    };
    let slices = schedule_by_priority(&checked, Priority::HighestRatio);
    let res = build_result(String::from_str("HRRN"), &checked, slices);
    proof {
        lemma_metrics_turnaround_at_least_service(res, res.algorithm@, checked@, slices_view(res.slices@));
    }
    Ok(res)
}

} // verus!
