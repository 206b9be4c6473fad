//! Round Robin.
use vstd::prelude::*;
use vstd::string::*;
use crate::order::{
    arrival_order, is_arrival_order, sort_by_arrival, usize_seq_to_int,
    lemma_arrival_order_distinct, lemma_arrival_order_exists, lemma_arrival_order_same_table,
};
use crate::process::{
    Process, valid_processes, within_limits, validation_error, normalized, validate_processes,
    MAX_TICKS, TICKS_PER_UNIT, same_table,
};
use crate::timeline::{
    turnaround_covers_service, lemma_metrics_turnaround_at_least_service, ExecutionSlice,
    ScheduleResult, SliceView, slices_view, describes, serves_exactly, build_result, chronological,
    slices_after_arrival, run_time, slices_within, time_bound, append_slice, append_slice_spec,
    lemma_append_run_time, lemma_append_chronological, lemma_append_after_arrival,
};
use crate::work::{
    sum_of, has_work, services, i64_seq_to_int, lemma_sum_update, lemma_sum_nonneg, lemma_sum_le,
    lemma_sum_bound,
};

verus! {

/// The state of a Round Robin run: the clock, how many processes (in order
/// of arrival) have been admitted, the ready queue, the work left of every
/// process and the timeline so far.
pub struct RrState {
    pub time: int,
    pub next: int,
    pub ready: Seq<int>,
    pub remaining: Seq<int>,
    pub slices: Seq<SliceView>,
}

/// Appends to `ready` the processes, from position `next` of the order of
/// arrival `o` on, that have arrived by `time`.
pub open spec fn enqueue_arrivals(ps: Seq<Process>, o: Seq<int>, next: int, time: int, ready: Seq<int>) -> (int, Seq<int>)
    decreases ps.len() - next,
{
    if 0 <= next < ps.len() && ps[o[next]].arrival <= time {
        enqueue_arrivals(ps, o, next + 1, time, ready.push(o[next]))
    } else {
        (next, ready)
    }
}

/// The start of a turn: when the queue is empty the clock moves to the
/// next arrival (if it is later) and the arrivals are queued.
pub open spec fn rr_refill(ps: Seq<Process>, o: Seq<int>, s: RrState) -> RrState {
    if s.ready.len() == 0 {
        let time0 = if 0 <= s.next < ps.len() && s.time < ps[o[s.next]].arrival {
            ps[o[s.next]].arrival as int
        } else {
            s.time
        };
        let admitted = enqueue_arrivals(ps, o, s.next, time0, s.ready);
        RrState { time: time0, next: admitted.0, ready: admitted.1, ..s }
    } else {
        s
    }
}

/// The rest of a turn: the head of the queue runs for the quantum `q` or
/// until it finishes; processes that arrived by the end of the turn are
/// queued, then the process itself if it has work left.
pub open spec fn rr_run_head(ps: Seq<Process>, o: Seq<int>, q: int, s: RrState) -> RrState {
    let p = s.ready[0];
    let run = if q < s.remaining[p] {
        q
    } else {
        s.remaining[p]
    };
    let end = s.time + run;
    let remaining = s.remaining.update(p, s.remaining[p] - run);
    let after = enqueue_arrivals(ps, o, s.next, end, s.ready.drop_first());
    RrState {
        time: end,
        next: after.0,
        ready: if remaining[p] > 0 {
            after.1.push(p)
        } else {
            after.1
        },
        remaining,
        slices: append_slice_spec(s.slices, ps[p].name@, s.time, end),
    }
}

/// One turn of Round Robin.
pub open spec fn rr_step(ps: Seq<Process>, o: Seq<int>, q: int, s: RrState) -> RrState {
    rr_run_head(ps, o, q, rr_refill(ps, o, s))
}

/// Takes at most `fuel` turns from `s`, stopping when no work is left, and
/// returns the timeline.
pub open spec fn rr_run(ps: Seq<Process>, o: Seq<int>, q: int, s: RrState, fuel: nat) -> Seq<SliceView>
    decreases fuel,
{
    if fuel == 0 || !has_work(s.remaining) {
        s.slices
    } else {
        rr_run(ps, o, q, rr_step(ps, o, q, s), (fuel - 1) as nat)
    }
}

/// The first state of a Round Robin run.
pub open spec fn rr_start(ps: Seq<Process>) -> RrState {
    RrState { time: 0, next: 0, ready: seq![], remaining: services(ps), slices: seq![] }
}

/// The Round Robin timeline of `ps` with a quantum of `q` ticks.
pub open spec fn rr_timeline(ps: Seq<Process>, q: int) -> Seq<SliceView> {
    rr_run(ps, arrival_order(ps), q, rr_start(ps), sum_of(services(ps)) as nat)
}

/// The facts that hold of every state of a Round Robin run.
pub open spec fn rr_inv(ps: Seq<Process>, o: Seq<int>, s: RrState) -> bool {
    let n = ps.len();
    &&& valid_processes(ps)
    &&& is_arrival_order(ps, o)
    &&& 0 <= s.next <= n
    &&& s.remaining.len() == n
    &&& forall|i: int| 0 <= i < n ==> 0 <= #[trigger] s.remaining[i] <= ps[i].service
    &&& queue_ok(ps, o, s.next, s.time, s.ready, s.remaining)
    &&& forall|m: int| s.next <= m < n ==> s.remaining[#[trigger] o[m]] == ps[o[m]].service
    &&& forall|i: int|
        0 <= i < n && #[trigger] s.remaining[i] > 0 ==> s.ready.contains(i) || exists|m: int|
            s.next <= m < n && o[m] == i
    &&& chronological(s.slices)
    &&& slices_within(s.slices, s.time)
    &&& slices_after_arrival(ps, s.slices)
    &&& forall|i: int|
        0 <= i < n ==> run_time(s.slices, (#[trigger] ps[i]).name@) + s.remaining[i] == ps[i].service
    &&& 0 <= s.time
    &&& s.time + sum_of(s.remaining) <= MAX_TICKS + sum_of(services(ps))
}

/// The queue holds distinct admitted processes that have arrived by `time`
/// and have work left.
pub open spec fn queue_ok(ps: Seq<Process>, o: Seq<int>, next: int, time: int, ready: Seq<int>, remaining: Seq<int>) -> bool {
    &&& forall|k: int|
        0 <= k < ready.len() ==> 0 <= #[trigger] ready[k] < ps.len() && remaining[ready[k]] > 0
            && ps[ready[k]].arrival <= time && exists|m: int| 0 <= m < next && o[m] == ready[k]
    &&& forall|k: int, l: int| 0 <= k < l < ready.len() ==> #[trigger] ready[k] != #[trigger] ready[l]
}

proof fn lemma_enqueue_arrivals(ps: Seq<Process>, o: Seq<int>, next: int, time: int, ready: Seq<int>, remaining: Seq<int>)
    requires
        valid_processes(ps),
        is_arrival_order(ps, o),
        0 <= next <= ps.len(),
        remaining.len() == ps.len(),
        queue_ok(ps, o, next, time, ready, remaining),
        forall|m: int| next <= m < ps.len() ==> remaining[#[trigger] o[m]] == ps[o[m]].service,
    ensures
        ({
            let (next1, ready1) = enqueue_arrivals(ps, o, next, time, ready);
            &&& next <= next1 <= ps.len()
            &&& ready1 == ready + o.subrange(next, next1)
            &&& next1 == ps.len() || ps[o[next1]].arrival > time
            &&& queue_ok(ps, o, next1, time, ready1, remaining)
        }),
    decreases ps.len() - next,
{
    if 0 <= next < ps.len() && ps[o[next]].arrival <= time {
        let x = o[next];
        let r = ready.push(x);
        assert(0 <= x < ps.len());
        assert forall|k: int| 0 <= k < r.len() implies 0 <= #[trigger] r[k] < ps.len() && remaining[r[k]]
            > 0 && ps[r[k]].arrival <= time && exists|m: int| 0 <= m < next + 1 && o[m] == r[k] by {
            if k < ready.len() {
                assert(r[k] == ready[k]);
            } else {
                assert(o[next] == r[k]);
            }
        }
        assert forall|k: int, l: int| 0 <= k < l < r.len() implies #[trigger] r[k] != #[trigger] r[l] by {
            if l < ready.len() {
                assert(r[k] == ready[k] && r[l] == ready[l]);
            } else {
                assert(r[k] == ready[k]);
                let m = choose|m: int| 0 <= m < next && o[m] == ready[k];
                lemma_arrival_order_distinct(ps, o, m, next);
            }
        }
        lemma_enqueue_arrivals(ps, o, next + 1, time, r, remaining);
        let (next1, ready1) = enqueue_arrivals(ps, o, next + 1, time, r);
        assert(ready1 =~= ready + o.subrange(next, next1));
    } else {
        assert(ready =~= ready + o.subrange(next, next));
    }
}

/// Refilling an empty queue keeps the facts of `rr_inv` and leaves a
/// process to run.
pub proof fn lemma_rr_refill(ps: Seq<Process>, o: Seq<int>, s: RrState)
    requires
        rr_inv(ps, o, s),
        has_work(s.remaining),
    ensures
        rr_inv(ps, o, rr_refill(ps, o, s)),
        rr_refill(ps, o, s).ready.len() > 0,
        rr_refill(ps, o, s).remaining == s.remaining,
        rr_refill(ps, o, s).slices == s.slices,
        rr_refill(ps, o, s).time >= s.time,
{
    let n = ps.len();
    if s.ready.len() == 0 {
        let i0 = choose|i: int| 0 <= i < s.remaining.len() && #[trigger] s.remaining[i] > 0;
        assert(!s.ready.contains(i0));
        assert(s.next < n);
        assert(0 <= o[s.next] < n);
        let t = rr_refill(ps, o, s);
        let time0 = t.time;
        assert(queue_ok(ps, o, s.next, time0, s.ready, s.remaining));
        lemma_enqueue_arrivals(ps, o, s.next, time0, s.ready, s.remaining);
        assert(t.ready =~= o.subrange(s.next, t.next));
        assert(ps[o[s.next]].arrival <= time0);
        assert(t.next > s.next);
        assert forall|i: int| 0 <= i < n && #[trigger] t.remaining[i] > 0 implies t.ready.contains(i)
            || exists|m: int| t.next <= m < n && o[m] == i by {
            let m = choose|m: int| s.next <= m < n && o[m] == i;
            if m < t.next {
                assert(t.ready[m - s.next] == i);
            }
        }
        assert(slices_within(s.slices, time0)) by {
            assert forall|k: int| 0 <= k < s.slices.len() implies 0 <= (#[trigger] s.slices[k]).start
                <= s.slices[k].end <= time0 by {
            }
        }
        assert(sum_of(s.remaining) <= sum_of(services(ps))) by {
            lemma_sum_le(s.remaining, services(ps));
        }
    }
}

/// Running the head of a non-empty queue keeps the facts of `rr_inv` and
/// does some work.
pub proof fn lemma_rr_run_head(ps: Seq<Process>, o: Seq<int>, q: int, s: RrState)
    requires
        rr_inv(ps, o, s),
        s.ready.len() > 0,
        q >= 1,
    ensures
        rr_inv(ps, o, rr_run_head(ps, o, q, s)),
        sum_of(rr_run_head(ps, o, q, s).remaining) < sum_of(s.remaining),
{
    let n = ps.len();
    let p = s.ready[0];
    assert(0 <= p < n && s.remaining[p] > 0 && ps[p].arrival <= s.time);
    let m0 = choose|m: int| 0 <= m < s.next && o[m] == p;
    let run = if q < s.remaining[p] {
        q
    } else {
        s.remaining[p]
    };
    let end = s.time + run;
    let rem = s.remaining.update(p, s.remaining[p] - run);
    let rest = s.ready.drop_first();
    assert forall|k: int| 0 <= k < rest.len() implies rest[k] != p by {
        assert(rest[k] == s.ready[k + 1]);
    }
    assert(queue_ok(ps, o, s.next, end, rest, rem)) by {
        assert forall|k: int| 0 <= k < rest.len() implies 0 <= #[trigger] rest[k] < ps.len() && rem[rest[k]]
            > 0 && ps[rest[k]].arrival <= end && exists|m: int| 0 <= m < s.next && o[m] == rest[k] by {
            assert(rest[k] == s.ready[k + 1]);
        }
        assert forall|k: int, l: int| 0 <= k < l < rest.len() implies #[trigger] rest[k]
            != #[trigger] rest[l] by {
            assert(rest[k] == s.ready[k + 1] && rest[l] == s.ready[l + 1]);
        }
    }
    assert forall|m: int| s.next <= m < n implies rem[#[trigger] o[m]] == ps[o[m]].service by {
        lemma_arrival_order_distinct(ps, o, m, m0);
    }
    lemma_enqueue_arrivals(ps, o, s.next, end, rest, rem);
    let after = enqueue_arrivals(ps, o, s.next, end, rest);
    let next1 = after.0;
    let ready1 = after.1;
    let t = rr_run_head(ps, o, q, s);
    assert forall|k: int| 0 <= k < ready1.len() implies ready1[k] != p by {
        if k < rest.len() {
            assert(ready1[k] == rest[k]);
        } else {
            assert(ready1[k] == o[s.next + k - rest.len()]);
            lemma_arrival_order_distinct(ps, o, s.next + k - rest.len(), m0);
        }
    }
    assert(queue_ok(ps, o, t.next, t.time, t.ready, t.remaining)) by {
        if rem[p] > 0 {
            assert forall|k: int| 0 <= k < t.ready.len() implies 0 <= #[trigger] t.ready[k] < ps.len()
                && rem[t.ready[k]] > 0 && ps[t.ready[k]].arrival <= end && exists|m: int|
                0 <= m < next1 && o[m] == t.ready[k] by {
                if k < ready1.len() {
                    assert(t.ready[k] == ready1[k]);
                } else {
                    assert(t.ready[k] == p);
                    assert(o[m0] == p);
                }
            }
            assert forall|k: int, l: int| 0 <= k < l < t.ready.len() implies #[trigger] t.ready[k]
                != #[trigger] t.ready[l] by {
                if l < ready1.len() {
                    assert(t.ready[k] == ready1[k] && t.ready[l] == ready1[l]);
                } else {
                    assert(t.ready[k] == ready1[k]);
                }
            }
        }
    }
    assert forall|i: int| 0 <= i < n && #[trigger] t.remaining[i] > 0 implies t.ready.contains(i)
        || exists|m: int| t.next <= m < n && o[m] == i by {
        if i == p {
            assert(t.ready[t.ready.len() - 1] == p);
        } else {
            assert(s.remaining[i] > 0);
            if s.ready.contains(i) {
                let k = choose|k: int| 0 <= k < s.ready.len() && s.ready[k] == i;
                assert(k > 0);
                assert(rest[k - 1] == i);
                assert(ready1[k - 1] == i);
                assert(ready1.contains(i));
            } else {
                let m = choose|m: int| s.next <= m < n && o[m] == i;
                if m < next1 {
                    assert(ready1[rest.len() + m - s.next] == i);
                }
            }
            if ready1.contains(i) && rem[p] > 0 {
                let k = choose|k: int| 0 <= k < ready1.len() && ready1[k] == i;
                assert(t.ready[k] == i);
            }
        }
    }
    assert forall|m: int| t.next <= m < n implies t.remaining[#[trigger] o[m]] == ps[o[m]].service by {
        lemma_arrival_order_distinct(ps, o, m, m0);
    }
    lemma_append_chronological(s.slices, ps[p].name@, s.time, end);
    lemma_append_after_arrival(ps, s.slices, p, s.time, end);
    assert forall|i: int| 0 <= i < n implies run_time(t.slices, (#[trigger] ps[i]).name@) + t.remaining[i]
        == ps[i].service by {
        lemma_append_run_time(s.slices, ps[p].name@, s.time, end, ps[i].name@);
        if i != p {
            assert(ps[i].name@ != ps[p].name@);
        }
    }
    lemma_sum_update(s.remaining, p, s.remaining[p] - run);
}

/// A turn keeps the facts of `rr_inv` and does some work.
pub proof fn lemma_rr_step(ps: Seq<Process>, o: Seq<int>, q: int, s: RrState)
    requires
        rr_inv(ps, o, s),
        has_work(s.remaining),
        q >= 1,
    ensures
        rr_inv(ps, o, rr_step(ps, o, q, s)),
        sum_of(rr_step(ps, o, q, s).remaining) < sum_of(s.remaining),
{
    lemma_rr_refill(ps, o, s);
    lemma_rr_run_head(ps, o, q, rr_refill(ps, o, s));
}

proof fn lemma_rr_start(ps: Seq<Process>, o: Seq<int>)
    requires
        valid_processes(ps),
        is_arrival_order(ps, o),
    ensures
        rr_inv(ps, o, rr_start(ps)),
{
    let s = rr_start(ps);
    assert forall|i: int| 0 <= i < ps.len() && #[trigger] s.remaining[i] > 0 implies s.ready.contains(i)
        || exists|m: int| s.next <= m < ps.len() && o[m] == i by {
        assert(o.contains(i));
    }
}

/// Every Round Robin timeline of valid processes runs one process at a
/// time, never before it arrives, each for exactly its service time.
pub proof fn lemma_rr_serves_exactly(ps: Seq<Process>, o: Seq<int>, q: int, s: RrState, fuel: nat)
    requires
        rr_inv(ps, o, s),
        q >= 1,
        fuel >= sum_of(s.remaining),
    ensures
        serves_exactly(ps, rr_run(ps, o, q, s, fuel)),
        slices_within(rr_run(ps, o, q, s, fuel), MAX_TICKS + sum_of(services(ps))),
    decreases fuel,
{
    lemma_sum_nonneg(s.remaining);
    if fuel == 0 || !has_work(s.remaining) {
        assert forall|i: int| 0 <= i < ps.len() implies s.remaining[i] == 0 by {
            if s.remaining[i] > 0 {
                assert(has_work(s.remaining));
            }
        }
        assert forall|k: int| 0 <= k < s.slices.len() implies 0 <= (#[trigger] s.slices[k]).start
            <= s.slices[k].end <= MAX_TICKS + sum_of(services(ps)) by {
        }
    } else {
        lemma_rr_step(ps, o, q, s);
        lemma_rr_serves_exactly(ps, o, q, rr_step(ps, o, q, s), (fuel - 1) as nat);
    }
}

proof fn lemma_enqueue_same_table(a: Seq<Process>, b: Seq<Process>, o: Seq<int>, next: int, time: int, ready: Seq<int>)
    requires
        same_table(a, b),
        o.len() == a.len(),
        forall|m: int| 0 <= m < o.len() ==> 0 <= #[trigger] o[m] < a.len(),
    ensures
        enqueue_arrivals(a, o, next, time, ready) == enqueue_arrivals(b, o, next, time, ready),
    decreases a.len() - next,
{
    if 0 <= next < a.len() {
        assert(a[o[next]].arrival == b[o[next]].arrival);
        lemma_enqueue_same_table(a, b, o, next + 1, time, ready.push(o[next]));
    }
}

proof fn lemma_rr_step_same_table(a: Seq<Process>, b: Seq<Process>, o: Seq<int>, q: int, s: RrState)
    requires
        rr_inv(a, o, s),
        has_work(s.remaining),
        same_table(a, b),
        q >= 1,
    ensures
        rr_step(a, o, q, s) == rr_step(b, o, q, s),
{
    let n = a.len();
    assert(forall|m: int| 0 <= m < o.len() ==> 0 <= #[trigger] o[m] < n);
    if s.ready.len() == 0 && 0 <= s.next < n {
        assert(a[o[s.next]].arrival == b[o[s.next]].arrival);
    }
    let time0 = if 0 <= s.next < n && s.time < a[o[s.next]].arrival {
        a[o[s.next]].arrival as int
    } else {
        s.time
    };
    lemma_enqueue_same_table(a, b, o, s.next, time0, s.ready);
    let s1 = rr_refill(a, o, s);
    assert(s1 == rr_refill(b, o, s));
    lemma_rr_refill(a, o, s);
    let p = s1.ready[0];
    assert(0 <= p < n);
    assert(a[p].name@ == b[p].name@);
    let run = if q < s1.remaining[p] {
        q
    } else {
        s1.remaining[p]
    };
    lemma_enqueue_same_table(a, b, o, s1.next, s1.time + run, s1.ready.drop_first());
}

proof fn lemma_rr_run_same_table(a: Seq<Process>, b: Seq<Process>, o: Seq<int>, q: int, s: RrState, fuel: nat)
    requires
        rr_inv(a, o, s),
        same_table(a, b),
        q >= 1,
    ensures
        rr_run(a, o, q, s, fuel) == rr_run(b, o, q, s, fuel),
    decreases fuel,
{
    if fuel > 0 && has_work(s.remaining) {
        lemma_rr_step_same_table(a, b, o, q, s);
        lemma_rr_step(a, o, q, s);
        lemma_rr_run_same_table(a, b, o, q, rr_step(a, o, q, s), (fuel - 1) as nat);
    }
}

/// The Round Robin timeline depends on the names and times of the
/// processes alone.
pub proof fn lemma_rr_same_table(a: Seq<Process>, b: Seq<Process>, q: int)
    requires
        valid_processes(a),
        same_table(a, b),
        q >= 1,
    ensures
        rr_timeline(a, q) == rr_timeline(b, q),
{
    lemma_arrival_order_same_table(a, b);
    lemma_arrival_order_exists(a);
    let o = arrival_order(a);
    assert(services(a) =~= services(b));
    assert(rr_start(a) == rr_start(b));
    lemma_rr_start(a, o);
    lemma_rr_run_same_table(a, b, o, q, rr_start(a), sum_of(services(a)) as nat);
}

/// The mathematical state of a Round Robin run as the machine holds it.
pub open spec fn rr_state_of(
    time: i64,
    next: usize,
    ready: Seq<usize>,
    remaining: Seq<i64>,
    slices: Seq<ExecutionSlice>,
) -> RrState {
    RrState {
        time: time as int,
        next: next as int,
        ready: usize_seq_to_int(ready),
        remaining: i64_seq_to_int(remaining),
        slices: slices_view(slices),
    }
}

/// Queues the processes, from position `next` of `order` on, that have
/// arrived by `time`.
fn admit_arrivals(processes: &Vec<Process>, order: &Vec<usize>, next: &mut usize, time: i64, ready: &mut Vec<usize>)
    requires
        order@.len() == processes@.len(),
        forall|k: int| 0 <= k < order@.len() ==> #[trigger] order@[k] < processes@.len(),
        *old(next) <= processes@.len(),
    ensures
        (*final(next) as int, usize_seq_to_int(final(ready)@)) == enqueue_arrivals(
            processes@,
            usize_seq_to_int(order@),
            *old(next) as int,
            time as int,
            usize_seq_to_int(old(ready)@),
        ),
        *final(next) <= processes@.len(),
{
    let ghost ps = processes@;
    let ghost o = usize_seq_to_int(order@);
    let ghost goal = enqueue_arrivals(ps, o, *next as int, time as int, usize_seq_to_int(ready@));
    while *next < processes.len() && processes[order[*next]].arrival <= time
        invariant
            ps == processes@,
            o == usize_seq_to_int(order@),
            order@.len() == ps.len(),
            forall|k: int| 0 <= k < order@.len() ==> #[trigger] order@[k] < ps.len(),
            *next <= ps.len(),
            enqueue_arrivals(ps, o, *next as int, time as int, usize_seq_to_int(ready@)) == goal,
        decreases ps.len() - *next,
    {
        let x = order[*next];
        let ghost before = usize_seq_to_int(ready@);
        ready.push(x);
        assert(usize_seq_to_int(ready@) =~= before.push(o[*next as int]));
        *next = *next + 1;
    }
}

/// The digit of a quantum between 1 and 6.
pub open spec fn quantum_text(q: u32) -> Seq<char> {
    if q == 1 {
        "1"@
    } else if q == 2 {
        "2"@
    } else if q == 3 {
        "3"@
    } else if q == 4 {
        "4"@
    } else if q == 5 {
        "5"@
    } else {
        "6"@
    }
}

/// The label of a Round Robin schedule with quantum `q`.
pub open spec fn rr_label(q: u32) -> Seq<char> {
    "RR q="@ + quantum_text(q)
}

/// The complaint about a quantum outside 1 to 6.
pub open spec fn msg_bad_quantum() -> Seq<char> {
    "Round Robin quantum must be between 1 and 6."@
}

/// The digit of a quantum between 1 and 6.
pub(crate) fn quantum_digit(q: u32) -> (r: &'static str)
    requires
        1 <= q <= 6,
    ensures
        r@ == quantum_text(q),
{
    if q == 1 {
        "1"
    } else if q == 2 {
        "2"
    } else if q == 3 {
        "3"
    } else if q == 4 {
        "4"
    } else if q == 5 {
        "5"
    } else {
        "6"
    }
}

/// Runs Round Robin with a quantum of `quantum` time units, which must be
/// between 1 and 6.
pub fn schedule_rr(processes: &[Process], quantum: u32) -> (r: Result<ScheduleResult, String>)
    requires
        within_limits(processes@),
    ensures
        !(1 <= quantum <= 6) ==> (r matches Err(m) && m@ == msg_bad_quantum()),
        1 <= quantum <= 6 ==> {
            &&& r is Ok <==> validation_error(processes@) is None
            &&& r matches Err(m) ==> validation_error(processes@) == Some(m@)
            &&& r matches Ok(res) ==> exists|checked: Seq<Process>|
                normalized(processes@, checked) && valid_processes(checked) && describes(
                    res,
                    rr_label(quantum),
                    checked,
                    rr_timeline(checked, quantum * TICKS_PER_UNIT),
                ) && serves_exactly(checked, slices_view(res.slices@))
                && turnaround_covers_service(res.metrics@)
        },
{
    if !(1 <= quantum && quantum <= 6) {
        return Err(String::from_str("Round Robin quantum must be between 1 and 6."));
    }
    let checked = match validate_processes(processes) {
        Ok(v) => v,
        Err(e) => return Err(e),
    };
    let slices = run_round_robin(&checked, quantum as i64 * TICKS_PER_UNIT);
    let mut label = String::from_str("RR q=");
    label.append(quantum_digit(quantum));
    let res = build_result(label, &checked, slices);
    proof {
        lemma_metrics_turnaround_at_least_service(res, res.algorithm@, checked@, slices_view(res.slices@));
    }
    Ok(res)
}

/// The Round Robin timeline of validated processes, with a quantum of `q`
/// ticks.
pub(crate) fn run_round_robin(processes: &Vec<Process>, q: i64) -> (slices: Vec<ExecutionSlice>)
    requires
        valid_processes(processes@),
        1 <= q <= 6 * TICKS_PER_UNIT,
    ensures
        slices_view(slices@) == rr_timeline(processes@, q as int),
        serves_exactly(processes@, slices_view(slices@)),
        slices_within(slices_view(slices@), time_bound()),
{
    let ghost ps = processes@;
    let n = processes.len();
    let order = sort_by_arrival(processes);
    let ghost o = usize_seq_to_int(order@);
    let mut remaining: Vec<i64> = Vec::new();
    let mut work_left: i64 = 0;
    proof {
        lemma_sum_bound(services(ps));
        assert(sum_of(services(ps)) >= 0) by {
            lemma_sum_nonneg(services(ps));
        }
    }
    while remaining.len() < n
        invariant
            ps == processes@,
            n == ps.len(),
            valid_processes(ps),
            remaining@.len() <= n,
            forall|i: int| 0 <= i < remaining@.len() ==> #[trigger] remaining@[i] == ps[i].service,
            work_left == sum_of(i64_seq_to_int(remaining@)),
            0 <= work_left <= remaining@.len() * MAX_TICKS,
        decreases n - remaining@.len(),
    {
        let ghost before = i64_seq_to_int(remaining@);
        let s = processes[remaining.len()].service;
        remaining.push(s);
        assert(i64_seq_to_int(remaining@).drop_last() =~= before);
        work_left = work_left + s;
    }
    assert(i64_seq_to_int(remaining@) =~= services(ps));
    assert forall|k: int| 0 <= k < order@.len() implies #[trigger] order@[k] < n by {
        assert(o[k] == order@[k] as int);
    }
    let mut time: i64 = 0;
    let mut next: usize = 0;
    let mut ready: Vec<usize> = Vec::new();
    let mut slices: Vec<ExecutionSlice> = Vec::new();
    let ghost mut fuel: nat = sum_of(services(ps)) as nat;
    proof {
        assert(rr_state_of(time, next, ready@, remaining@, slices@) =~= rr_start(ps)) by {
            assert(usize_seq_to_int(ready@) =~= seq![]);
            assert(slices_view(slices@) =~= seq![]);
        }
        lemma_rr_start(ps, o);
    }
    while work_left > 0
        invariant
            ps == processes@,
            n == ps.len(),
            o == usize_seq_to_int(order@),
            o == arrival_order(ps),
            order@.len() == n,
            forall|k: int| 0 <= k < order@.len() ==> #[trigger] order@[k] < n,
            1 <= q <= 6 * TICKS_PER_UNIT,
            rr_inv(ps, o, rr_state_of(time, next, ready@, remaining@, slices@)),
            remaining@.len() == n,
            work_left == sum_of(i64_seq_to_int(remaining@)),
            fuel >= work_left,
            rr_run(ps, o, q as int, rr_state_of(time, next, ready@, remaining@, slices@), fuel)
                == rr_timeline(ps, q as int),
            sum_of(services(ps)) <= n * MAX_TICKS,
        decreases work_left,
    {
        let ghost s = rr_state_of(time, next, ready@, remaining@, slices@);
        proof {
            lemma_sum_nonneg(s.remaining);
            lemma_rr_refill(ps, o, s);
            lemma_rr_step(ps, o, q as int, s);
        }
        if ready.len() == 0 {
            if next < n && time < processes[order[next]].arrival {
                time = processes[order[next]].arrival;
            }
            admit_arrivals(processes, &order, &mut next, time, &mut ready);
        }
        let ghost s1 = rr_state_of(time, next, ready@, remaining@, slices@);
        proof {
            assert(s1 =~= rr_refill(ps, o, s));
            assert(0 <= s1.ready[0] < n);
            assert(s1.remaining[s1.ready[0]] > 0);
            lemma_rr_run_head(ps, o, q as int, s1);
        }
        let p = ready.remove(0);
        assert(usize_seq_to_int(ready@) =~= s1.ready.drop_first());
        let rem_p = remaining[p];
        let run = if q < rem_p {
            q
        } else {
            rem_p
        };
        let start = time;
        time = time + run;
        remaining.set(p, rem_p - run);
        proof {
            lemma_sum_update(s1.remaining, p as int, s1.remaining[p as int] - run);
            assert(i64_seq_to_int(remaining@) =~= s1.remaining.update(p as int, s1.remaining[p as int] - run));
        }
        work_left = work_left - run;
        append_slice(&mut slices, processes[p].name.as_str(), start, time);
        admit_arrivals(processes, &order, &mut next, time, &mut ready);
        let ghost queued = usize_seq_to_int(ready@);
        if remaining[p] > 0 {
            ready.push(p);
            assert(usize_seq_to_int(ready@) =~= queued.push(p as int));
        }
        proof {
            let t = rr_run_head(ps, o, q as int, s1);
            let cur = rr_state_of(time, next, ready@, remaining@, slices@);
            assert(usize_seq_to_int(ready@) =~= t.ready);
            assert(cur =~= t);
            fuel = (fuel - 1) as nat;
        }
    }
    proof {
        let s = rr_state_of(time, next, ready@, remaining@, slices@);
        lemma_sum_nonneg(s.remaining);
        lemma_rr_serves_exactly(ps, o, q as int, s, fuel);
        lemma_sum_nonneg(s.remaining);
        let sv = slices_view(slices@);
        assert(rr_run(ps, o, q as int, s, fuel) == sv);
        assert forall|k: int| 0 <= k < sv.len() implies 0 <= (#[trigger] sv[k]).start <= sv[k].end
            <= time_bound() by {
        }
    }
    slices
}

} // verus!
