//! Shortest Remaining Time.
use vstd::prelude::*;
use vstd::string::*;
use crate::order::{arrival_before, arrives_before, lemma_arrival_before_order};
use crate::process::{
    Process, valid_processes, within_limits, validation_error, normalized, validate_processes,
    MAX_TICKS, same_table, lemma_same_table_valid,
};
use crate::timeline::{
    turnaround_covers_service, lemma_metrics_turnaround_at_least_service, ExecutionSlice,
    ScheduleResult, SliceView, slices_view, describes, serves_exactly, build_result, chronological,
    slices_after_arrival, run_time, slices_within, time_bound, append_slice, append_slice_spec,
    lemma_append_run_time, lemma_append_chronological, lemma_append_after_arrival,
};
use crate::work::{
    sum_of, has_work, services, i64_seq_to_int, lemma_sum_update, lemma_sum_nonneg, lemma_sum_le,
    lemma_sum_bound,
};

verus! {

/// The state of a Shortest Remaining Time run: the clock, the process that
/// ran last (while it has work left), the work left of every process and
/// the timeline so far.
#[verifier::ext_equal]
pub struct SrtState {
    pub time: int,
    pub current: Option<int>,
    pub remaining: Seq<int>,
    pub slices: Seq<SliceView>,
}

/// Process `i` has arrived by `t` and has work left.
pub open spec fn srt_ready(ps: Seq<Process>, rem: Seq<int>, t: int, i: int) -> bool {
    0 <= i < ps.len() && rem[i] > 0 && ps[i].arrival <= t
}

/// `a` goes before `b`: less work left, then order of arrival.
pub open spec fn srt_before(ps: Seq<Process>, rem: Seq<int>, a: int, b: int) -> bool {
    rem[a] < rem[b] || (rem[a] == rem[b] && arrival_before(ps[a], ps[b]))
}

/// `i` is the ready process with the least work left.
pub open spec fn is_srt_candidate(ps: Seq<Process>, rem: Seq<int>, t: int, i: int) -> bool {
    &&& srt_ready(ps, rem, t, i)
    &&& forall|j: int| #[trigger] srt_ready(ps, rem, t, j) && j != i ==> srt_before(ps, rem, i, j)
}

/// The ready process with the least work left.
pub open spec fn srt_candidate(ps: Seq<Process>, rem: Seq<int>, t: int) -> int {
    choose|i: int| is_srt_candidate(ps, rem, t, i)
}

/// Some process has arrived by `t` and has work left.
pub open spec fn any_ready(ps: Seq<Process>, rem: Seq<int>, t: int) -> bool {
    exists|i: int| #[trigger] srt_ready(ps, rem, t, i)
}

/// The earliest arrival after `t`, among the first `k` processes, of a
/// process with work left.
pub open spec fn next_arrival(ps: Seq<Process>, rem: Seq<int>, t: int, k: int) -> Option<int>
    decreases k,
{
    if k <= 0 {
        None
    } else {
        let e = next_arrival(ps, rem, t, k - 1);
        let a = ps[k - 1].arrival as int;
        if rem[k - 1] > 0 && a > t {
            match e {
                Some(b) => if a < b {
                    Some(a)
                } else {
                    Some(b)
                },
                None => Some(a),
            }
        } else {
            e
        }
    }
}

/// When nothing that has work left has arrived, the clock moves to the next
/// arrival and no process counts as running.
pub open spec fn srt_idle(ps: Seq<Process>, s: SrtState) -> SrtState {
    if any_ready(ps, s.remaining, s.time) {
        s
    } else {
        SrtState {
            time: match next_arrival(ps, s.remaining, s.time, ps.len() as int) {
                Some(a) => a,
                None => s.time,
            },
            current: None,
            ..s
        }
    }
}

/// The process that runs next: the one with the least work left, unless
/// the one that ran last has just as much left.
pub open spec fn srt_choice(ps: Seq<Process>, s: SrtState) -> int {
    let cand = srt_candidate(ps, s.remaining, s.time);
    match s.current {
        Some(c) => if s.remaining[c] > 0 && ps[c].arrival <= s.time && s.remaining[c]
            == s.remaining[cand] {
            c
        } else {
            cand
        },
        None => cand,
    }
}

/// The chosen process runs until it finishes or the next process arrives.
pub open spec fn srt_run(ps: Seq<Process>, s: SrtState) -> SrtState {
    let c = srt_choice(ps, s);
    let finish = s.time + s.remaining[c];
    let end = match next_arrival(ps, s.remaining, s.time, ps.len() as int) {
        Some(a) => if a < finish {
            a
        } else {
            finish
        },
        None => finish,
    };
    let remaining = s.remaining.update(c, s.remaining[c] - (end - s.time));
    SrtState {
        time: end,
        current: if remaining[c] == 0 {
            None
        } else {
            Some(c)
        },
        remaining,
        slices: append_slice_spec(s.slices, ps[c].name@, s.time, end),
    }
}

/// One step of a Shortest Remaining Time run.
pub open spec fn srt_step(ps: Seq<Process>, s: SrtState) -> SrtState {
    srt_run(ps, srt_idle(ps, s))
}

/// Takes at most `fuel` steps from `s`, stopping when no work is left.
pub open spec fn srt_steps(ps: Seq<Process>, s: SrtState, fuel: nat) -> Seq<SliceView>
    decreases fuel,
{
    if fuel == 0 || !has_work(s.remaining) {
        s.slices
    } else {
        srt_steps(ps, srt_step(ps, s), (fuel - 1) as nat)
    }
}

/// The first state of a Shortest Remaining Time run.
pub open spec fn srt_start(ps: Seq<Process>) -> SrtState {
    SrtState { time: 0, current: None, remaining: services(ps), slices: seq![] }
}

/// The Shortest Remaining Time timeline of `ps`.
pub open spec fn srt_timeline(ps: Seq<Process>) -> Seq<SliceView> {
    srt_steps(ps, srt_start(ps), sum_of(services(ps)) as nat)
}

/// The facts that hold of every state of a Shortest Remaining Time run.
pub open spec fn srt_inv(ps: Seq<Process>, s: SrtState) -> bool {
    let n = ps.len();
    &&& valid_processes(ps)
    &&& s.remaining.len() == n
    &&& forall|i: int| 0 <= i < n ==> 0 <= #[trigger] s.remaining[i] <= ps[i].service
    &&& s.current matches Some(c) ==> 0 <= c < n
    &&& chronological(s.slices)
    &&& slices_within(s.slices, s.time)
    &&& slices_after_arrival(ps, s.slices)
    &&& forall|i: int|
        0 <= i < n ==> run_time(s.slices, (#[trigger] ps[i]).name@) + s.remaining[i] == ps[i].service
    &&& 0 <= s.time
    &&& s.time + sum_of(s.remaining) <= MAX_TICKS + sum_of(services(ps))
}

proof fn lemma_srt_before_order(ps: Seq<Process>, rem: Seq<int>, a: int, b: int, c: int)
    requires
        valid_processes(ps),
        0 <= a < ps.len(),
        0 <= b < ps.len(),
        0 <= c < ps.len(),
    ensures
        !srt_before(ps, rem, a, a),
        !(srt_before(ps, rem, a, b) && srt_before(ps, rem, b, a)),
        a != b ==> srt_before(ps, rem, a, b) || srt_before(ps, rem, b, a),
        srt_before(ps, rem, a, b) && srt_before(ps, rem, b, c) ==> srt_before(ps, rem, a, c),
{
    lemma_arrival_before_order(ps[a], ps[b], ps[c]);
    lemma_arrival_before_order(ps[a], ps[a], ps[a]);
    if a != b {
        assert(ps[a].name@ != ps[b].name@);
    }
}

proof fn lemma_next_arrival(ps: Seq<Process>, rem: Seq<int>, t: int, k: int)
    requires
        0 <= k <= ps.len(),
        rem.len() == ps.len(),
    ensures
        match next_arrival(ps, rem, t, k) {
            Some(a) => a > t && (exists|i: int| 0 <= i < k && rem[i] > 0 && ps[i].arrival == a)
                && forall|i: int| 0 <= i < k && rem[i] > 0 && ps[i].arrival > t ==> a <= #[trigger] ps[i].arrival,
            None => forall|i: int| 0 <= i < k && rem[i] > 0 ==> #[trigger] ps[i].arrival <= t,
        },
    decreases k,
{
    if k > 0 {
        lemma_next_arrival(ps, rem, t, k - 1);
    }
}

/// When nothing is ready the clock moves to an arrival, after which
/// something is ready.
proof fn lemma_srt_idle(ps: Seq<Process>, s: SrtState)
    requires
        srt_inv(ps, s),
        has_work(s.remaining),
    ensures
        srt_inv(ps, srt_idle(ps, s)),
        any_ready(ps, srt_idle(ps, s).remaining, srt_idle(ps, s).time),
        srt_idle(ps, s).remaining == s.remaining,
        srt_idle(ps, s).slices == s.slices,
        srt_idle(ps, s).time >= s.time,
{
    if !any_ready(ps, s.remaining, s.time) {
        let n = ps.len();
        lemma_next_arrival(ps, s.remaining, s.time, n as int);
        let i0 = choose|i: int| 0 <= i < s.remaining.len() && #[trigger] s.remaining[i] > 0;
        if ps[i0].arrival <= s.time {
            assert(srt_ready(ps, s.remaining, s.time, i0));
        }
        let t = srt_idle(ps, s);
        let w = choose|i: int| 0 <= i < n && s.remaining[i] > 0 && ps[i].arrival == t.time;
        assert(srt_ready(ps, s.remaining, t.time, w));
        assert(t.time <= MAX_TICKS);
        assert(slices_within(s.slices, t.time)) by {
            assert forall|k: int| 0 <= k < s.slices.len() implies 0 <= (#[trigger] s.slices[k]).start
                <= s.slices[k].end <= t.time by {
            }
        }
        assert(sum_of(s.remaining) <= sum_of(services(ps))) by {
            lemma_sum_le(s.remaining, services(ps));
        }
    }
}

proof fn lemma_srt_candidate_unique(ps: Seq<Process>, rem: Seq<int>, t: int, i: int)
    requires
        valid_processes(ps),
        is_srt_candidate(ps, rem, t, i),
    ensures
        srt_candidate(ps, rem, t) == i,
{
    let c = srt_candidate(ps, rem, t);
    assert(is_srt_candidate(ps, rem, t, c));
    if c != i {
        assert(srt_ready(ps, rem, t, c));
        lemma_srt_before_order(ps, rem, i, c, c);
    }
}

/// Running the chosen process keeps the facts of `srt_inv` and does some work.
proof fn lemma_srt_run(ps: Seq<Process>, s: SrtState)
    requires
        srt_inv(ps, s),
        any_ready(ps, s.remaining, s.time),
    ensures
        srt_inv(ps, srt_run(ps, s)),
        sum_of(srt_run(ps, s).remaining) < sum_of(s.remaining),
{
    let n = ps.len();
    let w = choose|i: int| #[trigger] srt_ready(ps, s.remaining, s.time, i);
    lemma_srt_pick_exists(ps, s.remaining, s.time, w);
    let cand = srt_candidate(ps, s.remaining, s.time);
    assert(srt_ready(ps, s.remaining, s.time, cand));
    let c = srt_choice(ps, s);
    assert(srt_ready(ps, s.remaining, s.time, c));
    lemma_next_arrival(ps, s.remaining, s.time, n as int);
    let t = srt_run(ps, s);
    let end = t.time;
    assert(s.time < end <= s.time + s.remaining[c]);
    lemma_append_chronological(s.slices, ps[c].name@, s.time, end);
    lemma_append_after_arrival(ps, s.slices, c, s.time, end);
    assert forall|i: int| 0 <= i < n implies run_time(t.slices, (#[trigger] ps[i]).name@) + t.remaining[i]
        == ps[i].service by {
        lemma_append_run_time(s.slices, ps[c].name@, s.time, end, ps[i].name@);
        if i != c {
            assert(ps[i].name@ != ps[c].name@);
        }
    }
    lemma_sum_update(s.remaining, c, s.remaining[c] - (end - s.time));
}

/// Among ready processes one has the least work left.
proof fn lemma_srt_pick_exists(ps: Seq<Process>, rem: Seq<int>, t: int, w: int)
    requires
        valid_processes(ps),
        srt_ready(ps, rem, t, w),
    ensures
        exists|i: int| is_srt_candidate(ps, rem, t, i),
{
    let i = lemma_srt_best_upto(ps, rem, t, w, ps.len() as int);
    assert(is_srt_candidate(ps, rem, t, i));
}

proof fn lemma_srt_best_upto(ps: Seq<Process>, rem: Seq<int>, t: int, w: int, k: int) -> (b: int)
    requires
        valid_processes(ps),
        srt_ready(ps, rem, t, w),
        0 <= k <= ps.len(),
    ensures
        srt_ready(ps, rem, t, b),
        forall|j: int|
            0 <= j < k && #[trigger] srt_ready(ps, rem, t, j) && j != b ==> srt_before(ps, rem, b, j),
    decreases k,
{
    if k == 0 {
        w
    } else {
        let b0 = lemma_srt_best_upto(ps, rem, t, w, k - 1);
        let j = k - 1;
        if srt_ready(ps, rem, t, j) && j != b0 && srt_before(ps, rem, j, b0) {
            assert forall|m: int|
                0 <= m < k && #[trigger] srt_ready(ps, rem, t, m) && m != j implies srt_before(
                ps,
                rem,
                j,
                m,
            ) by {
                if m != b0 {
                    lemma_srt_before_order(ps, rem, j, b0, m);
                }
            }
            j
        } else {
            if srt_ready(ps, rem, t, j) && j != b0 {
                lemma_srt_before_order(ps, rem, j, b0, b0);
            }
            b0
        }
    }
}

/// A step keeps the facts of `srt_inv` and does some work.
pub proof fn lemma_srt_step(ps: Seq<Process>, s: SrtState)
    requires
        srt_inv(ps, s),
        has_work(s.remaining),
    ensures
        srt_inv(ps, srt_step(ps, s)),
        sum_of(srt_step(ps, s).remaining) < sum_of(s.remaining),
{
    lemma_srt_idle(ps, s);
    lemma_srt_run(ps, srt_idle(ps, s));
}

/// Every Shortest Remaining Time timeline of valid processes runs one
/// process at a time, never before it arrives, each for exactly its
/// service time.
pub proof fn lemma_srt_serves_exactly(ps: Seq<Process>, s: SrtState, fuel: nat)
    requires
        srt_inv(ps, s),
        fuel >= sum_of(s.remaining),
    ensures
        serves_exactly(ps, srt_steps(ps, s, fuel)),
        slices_within(srt_steps(ps, s, fuel), MAX_TICKS + sum_of(services(ps))),
    decreases fuel,
{
    lemma_sum_nonneg(s.remaining);
    if fuel == 0 || !has_work(s.remaining) {
        assert forall|i: int| 0 <= i < ps.len() implies s.remaining[i] == 0 by {
            if s.remaining[i] > 0 {
                assert(has_work(s.remaining));
            }
        }
        assert forall|k: int| 0 <= k < s.slices.len() implies 0 <= (#[trigger] s.slices[k]).start
            <= s.slices[k].end <= MAX_TICKS + sum_of(services(ps)) by {
        }
    } else {
        lemma_srt_step(ps, s);
        lemma_srt_serves_exactly(ps, srt_step(ps, s), (fuel - 1) as nat);
    }
}

proof fn lemma_next_arrival_same_table(a: Seq<Process>, b: Seq<Process>, rem: Seq<int>, t: int, k: int)
    requires
        same_table(a, b),
        0 <= k <= a.len(),
    ensures
        next_arrival(a, rem, t, k) == next_arrival(b, rem, t, k),
    decreases k,
{
    if k > 0 {
        lemma_next_arrival_same_table(a, b, rem, t, k - 1);
        assert(a[k - 1].arrival == b[k - 1].arrival);
    }
}

proof fn lemma_ready_same_table(a: Seq<Process>, b: Seq<Process>, rem: Seq<int>, t: int)
    requires
        same_table(a, b),
    ensures
        forall|i: int| srt_ready(a, rem, t, i) == #[trigger] srt_ready(b, rem, t, i),
        any_ready(a, rem, t) == any_ready(b, rem, t),
{
    assert forall|i: int| srt_ready(a, rem, t, i) == #[trigger] srt_ready(b, rem, t, i) by {
        if 0 <= i < a.len() {
            assert(a[i].arrival == b[i].arrival);
        }
    }
    if any_ready(a, rem, t) {
        let w = choose|i: int| #[trigger] srt_ready(a, rem, t, i);
        assert(srt_ready(b, rem, t, w));
    }
    if any_ready(b, rem, t) {
        let w = choose|i: int| #[trigger] srt_ready(b, rem, t, i);
        assert(srt_ready(a, rem, t, w));
    }
}

proof fn lemma_srt_step_same_table(a: Seq<Process>, b: Seq<Process>, s: SrtState)
    requires
        srt_inv(a, s),
        has_work(s.remaining),
        same_table(a, b),
    ensures
        srt_step(a, s) == srt_step(b, s),
{
    let n = a.len();
    lemma_same_table_valid(a, b);
    lemma_ready_same_table(a, b, s.remaining, s.time);
    lemma_next_arrival_same_table(a, b, s.remaining, s.time, n as int);
    let s1 = srt_idle(a, s);
    assert(s1 == srt_idle(b, s));
    lemma_srt_idle(a, s);
    lemma_ready_same_table(a, b, s1.remaining, s1.time);
    lemma_next_arrival_same_table(a, b, s1.remaining, s1.time, n as int);
    let w = choose|i: int| #[trigger] srt_ready(a, s1.remaining, s1.time, i);
    lemma_srt_pick_exists(a, s1.remaining, s1.time, w);
    let cand = srt_candidate(a, s1.remaining, s1.time);
    assert(is_srt_candidate(a, s1.remaining, s1.time, cand));
    assert(is_srt_candidate(b, s1.remaining, s1.time, cand)) by {
        assert(srt_ready(b, s1.remaining, s1.time, cand));
        assert forall|j: int| #[trigger] srt_ready(b, s1.remaining, s1.time, j) && j != cand implies srt_before(
            b,
            s1.remaining,
            cand,
            j,
        ) by {
            assert(srt_ready(a, s1.remaining, s1.time, j));
            assert(srt_before(a, s1.remaining, cand, j));
            assert(a[cand].name@ == b[cand].name@ && a[j].name@ == b[j].name@);
        }
    }
    lemma_srt_candidate_unique(b, s1.remaining, s1.time, cand);
    if let Some(c) = s1.current {
        assert(a[c].arrival == b[c].arrival);
    }
    let c = srt_choice(a, s1);
    assert(c == srt_choice(b, s1));
    assert(0 <= c < n);
    assert(a[c].name@ == b[c].name@);
}

proof fn lemma_srt_steps_same_table(a: Seq<Process>, b: Seq<Process>, s: SrtState, fuel: nat)
    requires
        srt_inv(a, s),
        same_table(a, b),
    ensures
        srt_steps(a, s, fuel) == srt_steps(b, s, fuel),
    decreases fuel,
{
    if fuel > 0 && has_work(s.remaining) {
        lemma_srt_step_same_table(a, b, s);
        lemma_srt_step(a, s);
        lemma_srt_steps_same_table(a, b, srt_step(a, s), (fuel - 1) as nat);
    }
}

/// The Shortest Remaining Time timeline depends on the names and times of
/// the processes alone.
pub proof fn lemma_srt_same_table(a: Seq<Process>, b: Seq<Process>)
    requires
        valid_processes(a),
        same_table(a, b),
    ensures
        srt_timeline(a) == srt_timeline(b),
{
    assert(services(a) =~= services(b));
    assert(srt_start(a) == srt_start(b));
    assert(srt_inv(a, srt_start(a)));
    lemma_srt_steps_same_table(a, b, srt_start(a), sum_of(services(a)) as nat);
}

/// At every step of a Shortest Remaining Time run the process that runs has
/// arrived, has work left, and has no more work left than any other process
/// that has arrived and has work left.
pub proof fn lemma_srt_runs_least_remaining(ps: Seq<Process>, s: SrtState)
    requires
        srt_inv(ps, s),
        has_work(s.remaining),
    ensures
        ({
            let u = srt_idle(ps, s);
            let c = srt_choice(ps, u);
            &&& 0 <= c < ps.len()
            &&& u.remaining[c] > 0
            &&& ps[c].arrival <= u.time
            &&& forall|j: int|
                0 <= j < ps.len() && #[trigger] u.remaining[j] > 0 && ps[j].arrival <= u.time
                    ==> u.remaining[c] <= u.remaining[j]
        }),
{
    lemma_srt_idle(ps, s);
    let u = srt_idle(ps, s);
    let w = choose|i: int| #[trigger] srt_ready(ps, u.remaining, u.time, i);
    lemma_srt_pick_exists(ps, u.remaining, u.time, w);
    let cand = srt_candidate(ps, u.remaining, u.time);
    assert(is_srt_candidate(ps, u.remaining, u.time, cand));
    assert forall|j: int|
        0 <= j < ps.len() && #[trigger] u.remaining[j] > 0 && ps[j].arrival <= u.time implies u.remaining[cand]
        <= u.remaining[j] by {
        assert(srt_ready(ps, u.remaining, u.time, j));
    }
}

/// The mathematical state of a Shortest Remaining Time run as the machine
/// holds it.
pub open spec fn srt_state_of(time: i64, current: Option<usize>, remaining: Seq<i64>, slices: Seq<ExecutionSlice>) -> SrtState {
    SrtState {
        time: time as int,
        current: match current {
            Some(c) => Some(c as int),
            None => None,
        },
        remaining: i64_seq_to_int(remaining),
        slices: slices_view(slices),
    }
}

/// The ready process with the least work left, or `n` when none is ready.
fn find_candidate(processes: &Vec<Process>, remaining: &Vec<i64>, time: i64) -> (r: usize)
    requires
        valid_processes(processes@),
        remaining@.len() == processes@.len(),
    ensures
        r == processes@.len() <==> !any_ready(processes@, i64_seq_to_int(remaining@), time as int),
        r < processes@.len() ==> is_srt_candidate(processes@, i64_seq_to_int(remaining@), time as int, r as int),
        r <= processes@.len(),
{
    let ghost ps = processes@;
    let ghost rem = i64_seq_to_int(remaining@);
    let n = processes.len();
    let mut best: usize = n;
    let mut i: usize = 0;
    while i < n
        invariant
            ps == processes@,
            rem == i64_seq_to_int(remaining@),
            n == ps.len(),
            remaining@.len() == n,
            valid_processes(ps),
            0 <= i <= n,
            best == n || (best < i && srt_ready(ps, rem, time as int, best as int)),
            best == n ==> forall|m: int| 0 <= m < i ==> !#[trigger] srt_ready(ps, rem, time as int, m),
            best < n ==> forall|m: int|
                0 <= m < i && m != best && #[trigger] srt_ready(ps, rem, time as int, m) ==> srt_before(
                    ps,
                    rem,
                    best as int,
                    m,
                ),
        decreases n - i,
    {
        assert(rem[i as int] == remaining@[i as int]);
        if remaining[i] > 0 && processes[i].arrival <= time {
            let better = if best == n {
                true
            } else {
                assert(rem[best as int] == remaining@[best as int]);
                if remaining[i] != remaining[best] {
                    remaining[i] < remaining[best]
                } else {
                    arrives_before(&processes[i], &processes[best])
                }
            };
            proof {
                if best < n {
                    lemma_srt_before_order(ps, rem, i as int, best as int, best as int);
                    assert forall|m: int|
                        0 <= m < i + 1 && m != (if better { i } else { best }) && #[trigger] srt_ready(
                            ps,
                            rem,
                            time as int,
                            m,
                        ) implies srt_before(ps, rem, (if better { i } else { best }) as int, m) by {
                        if better && m != best && m < i {
                            lemma_srt_before_order(ps, rem, i as int, best as int, m);
                        }
                    }
                }
            }
            if better {
                best = i;
            }
        }
        i = i + 1;
    }
    best
}

/// The earliest arrival after `time` of a process with work left.
fn find_next_arrival(processes: &Vec<Process>, remaining: &Vec<i64>, time: i64) -> (r: Option<i64>)
    requires
        remaining@.len() == processes@.len(),
    ensures
        match next_arrival(processes@, i64_seq_to_int(remaining@), time as int, processes@.len() as int) {
            Some(a) => r == Some(a as i64) && a == r.unwrap() as int,
            None => r is None,
        },
{
    let ghost ps = processes@;
    let ghost rem = i64_seq_to_int(remaining@);
    let n = processes.len();
    let mut found: Option<i64> = None;
    let mut i: usize = 0;
    while i < n
        invariant
            ps == processes@,
            rem == i64_seq_to_int(remaining@),
            n == ps.len(),
            remaining@.len() == n,
            0 <= i <= n,
            match next_arrival(ps, rem, time as int, i as int) {
                Some(a) => found == Some(a as i64) && a == found.unwrap() as int,
                None => found is None,
            },
        decreases n - i,
    {
        assert(rem[i as int] == remaining@[i as int]);
        let a = processes[i].arrival;
        if remaining[i] > 0 && a > time {
            found = match found {
                Some(b) => if a < b {
                    Some(a)
                } else {
                    Some(b)
                },
                None => Some(a),
            };
        }
        i = i + 1;
    }
    found
}

/// Runs Shortest Remaining Time: the arrived process with the least work
/// left runs until it finishes or another process arrives; on a tie the
/// process that ran last keeps the CPU.
pub fn schedule_srt(processes: &[Process]) -> (r: Result<ScheduleResult, String>)
    requires
        within_limits(processes@),
    ensures
        r is Ok <==> validation_error(processes@) is None,
        r matches Err(m) ==> validation_error(processes@) == Some(m@),
        r matches Ok(res) ==> exists|checked: Seq<Process>|
            normalized(processes@, checked) && valid_processes(checked) && describes(res, "SRT"@, checked, srt_timeline(checked))
                && serves_exactly(checked, slices_view(res.slices@))
                && turnaround_covers_service(res.metrics@),
{
    let checked = match validate_processes(processes) {
        Ok(v) => v,
        Err(e) => return Err(e),
    };
    let slices = run_srt(&checked);
    let res = build_result(String::from_str("SRT"), &checked, slices);
    proof {
        lemma_metrics_turnaround_at_least_service(res, res.algorithm@, checked@, slices_view(res.slices@));
    }
    Ok(res)
}

/// The Shortest Remaining Time timeline of validated processes.
pub(crate) fn run_srt(processes: &Vec<Process>) -> (slices: Vec<ExecutionSlice>)
    requires
        valid_processes(processes@),
    ensures
        slices_view(slices@) == srt_timeline(processes@),
        serves_exactly(processes@, slices_view(slices@)),
        slices_within(slices_view(slices@), time_bound()),
{
    let ghost ps = processes@;
    let n = processes.len();
    let mut remaining: Vec<i64> = Vec::new();
    let mut work_left: i64 = 0;
    proof {
        lemma_sum_bound(services(ps));
        lemma_sum_nonneg(services(ps));
    }
    while remaining.len() < n
        invariant
            ps == processes@,
            n == ps.len(),
            valid_processes(ps),
            remaining@.len() <= n,
            forall|i: int| 0 <= i < remaining@.len() ==> #[trigger] remaining@[i] == ps[i].service,
            work_left == sum_of(i64_seq_to_int(remaining@)),
            0 <= work_left <= remaining@.len() * MAX_TICKS,
        decreases n - remaining@.len(),
    {
        let ghost before = i64_seq_to_int(remaining@);
        let s = processes[remaining.len()].service;
        remaining.push(s);
        assert(i64_seq_to_int(remaining@).drop_last() =~= before);
        work_left = work_left + s;
    }
    assert(i64_seq_to_int(remaining@) =~= services(ps));
    let mut time: i64 = 0;
    let mut current: Option<usize> = None;
    let mut slices: Vec<ExecutionSlice> = Vec::new();
    let ghost mut fuel: nat = sum_of(services(ps)) as nat;
    proof {
        assert(slices_view(slices@) =~= seq![]);
        assert(srt_state_of(time, current, remaining@, slices@) =~= srt_start(ps));
    }
    while work_left > 0
        invariant
            ps == processes@,
            n == ps.len(),
            srt_inv(ps, srt_state_of(time, current, remaining@, slices@)),
            remaining@.len() == n,
            work_left == sum_of(i64_seq_to_int(remaining@)),
            fuel >= work_left,
            srt_steps(ps, srt_state_of(time, current, remaining@, slices@), fuel) == srt_timeline(ps),
            sum_of(services(ps)) <= n * MAX_TICKS,
        decreases work_left,
    {
        let ghost s = srt_state_of(time, current, remaining@, slices@);
        proof {
            lemma_sum_nonneg(s.remaining);
            lemma_srt_idle(ps, s);
            lemma_srt_step(ps, s);
        }
        let mut cand = find_candidate(processes, &remaining, time);
        if cand == n {
            proof {
                lemma_next_arrival(ps, s.remaining, s.time, n as int);
            }
            match find_next_arrival(processes, &remaining, time) {
                Some(a) => {
                    time = a;
                },
                None => {},
            }
            current = None;
            cand = find_candidate(processes, &remaining, time);
        }
        let ghost s1 = srt_state_of(time, current, remaining@, slices@);
        proof {
            assert(s1 =~= srt_idle(ps, s));
            lemma_srt_run(ps, s1);
            lemma_srt_candidate_unique(ps, s1.remaining, s1.time, cand as int);
        }
        let chosen = match current {
            Some(c) => {
                assert(s1.remaining[c as int] == remaining@[c as int]);
                if remaining[c] > 0 && processes[c].arrival <= time && remaining[c] == remaining[cand] {
                    c
                } else {
                    cand
                }
            },
            None => cand,
        };
        assert(chosen as int == srt_choice(ps, s1));
        let next = find_next_arrival(processes, &remaining, time);
        assert(s1.remaining[chosen as int] == remaining@[chosen as int]);
        let finish = time + remaining[chosen];
        let end = match next {
            Some(a) => if a < finish {
                a
            } else {
                finish
            },
            None => finish,
        };
        append_slice(&mut slices, processes[chosen].name.as_str(), time, end);
        let left = remaining[chosen] - (end - time);
        remaining.set(chosen, left);
        proof {
            lemma_sum_update(s1.remaining, chosen as int, left as int);
            assert(i64_seq_to_int(remaining@) =~= s1.remaining.update(chosen as int, left as int));
        }
        work_left = work_left - (end - time);
        time = end;
        current = if left == 0 {
            None
        } else {
            Some(chosen)
        };
        proof {
            let t = srt_run(ps, s1);
            assert(srt_state_of(time, current, remaining@, slices@) =~= t);
            fuel = (fuel - 1) as nat;
        }
    }
    proof {
        let s = srt_state_of(time, current, remaining@, slices@);
        lemma_srt_serves_exactly(ps, s, fuel);
        lemma_sum_nonneg(s.remaining);
        let sv = slices_view(slices@);
        assert(srt_steps(ps, s, fuel) == sv);
        assert forall|k: int| 0 <= k < sv.len() implies 0 <= (#[trigger] sv[k]).start <= sv[k].end
            <= time_bound() by {
        }
    }
    slices
}

} // verus!
