//! The facts about one round of a multicore run: readying the cores,
//! finding the next event, running and settling the queues.
use vstd::prelude::*;
use crate::process::{Process, MAX_TICKS};
use crate::names::{lemma_chars_less_irreflexive, lemma_chars_less_transitive};
use crate::multicore::MulticoreAlgorithm;
use crate::multicore_steps::{
    McState, McConfig, mc_inv, runs_before, queues_ok, pending_ok, heads_ok, timelines_ok, queued,
    best_position, select_core, mc_select, min_opt, core_event, mc_event, apply_core, mc_apply,
    settle_core, mc_settle, applied, run_phase, total_run_time, mc_admit, mc_migrate, mc_round,
    rounds_bound, all_idle, lemma_mc_admit, lemma_mc_migrate, mc_prepared, mc_start,
    runs_within, latest_end, latest_end_on_cores, one_core_at_a_time, first_idle, donor, idle_count,
    steal, lemma_first_idle, lemma_donor, lemma_idle_count_bounds, lemma_steal,
};
use crate::timeline::{
    SliceView, append_slice_spec, run_time, chronological, slices_within, slices_after_arrival,
    lemma_append_run_time, lemma_append_chronological, lemma_append_after_arrival,
};
use crate::order::lemma_arrival_order_distinct;
use crate::work::{sum_of, has_work, services, lemma_sum_update, lemma_sum_nonneg, lemma_sum_le};

verus! {

/// Where the process at position `k` of a queue stood before the process at
/// position `b` moved to the front.
pub open spec fn moved_index(b: int, k: int) -> int {
    if k == 0 {
        b
    } else if k <= b {
        k - 1
    } else {
        k
    }
}

/// Where the process at position `j` of a queue stands after the process at
/// position `b` moved to the front.
pub open spec fn moved_inverse(b: int, j: int) -> int {
    if j == b {
        0
    } else if j < b {
        j + 1
    } else {
        j
    }
}

proof fn lemma_move_to_front(qu: Seq<int>, b: int)
    requires
        0 <= b < qu.len(),
    ensures
        (seq![qu[b]] + qu.remove(b)).len() == qu.len(),
        forall|k: int|
            0 <= k < qu.len() ==> #[trigger] (seq![qu[b]] + qu.remove(b))[k] == qu[moved_index(b, k)],
{
    let t = seq![qu[b]] + qu.remove(b);
    assert forall|k: int| 0 <= k < qu.len() implies #[trigger] t[k] == qu[moved_index(b, k)] by {
        if k > 0 {
            assert(t[k] == qu.remove(b)[k - 1]);
        }
    }
}

/// The process that runs first under SRT stands at a position of the queue.
pub proof fn lemma_best_position(ps: Seq<Process>, rem: Seq<int>, qu: Seq<int>, k: int)
    requires
        1 <= k <= qu.len(),
    ensures
        0 <= best_position(ps, rem, qu, k) < k,
    decreases k,
{
    if k > 1 {
        lemma_best_position(ps, rem, qu, k - 1);
    }
}

/// Where the process at position `k` of the queue of core `c` stood before
/// the core was readied.
pub open spec fn select_index(ps: Seq<Process>, cfg: McConfig, s: McState, c: int, k: int) -> int {
    let qu = s.queues[c];
    if cfg.algorithm == MulticoreAlgorithm::Srt && qu.len() > 0 {
        moved_index(best_position(ps, s.remaining, qu, qu.len() as int), k)
    } else {
        k
    }
}

/// Where the process at position `j` of the queue of core `c` stands after
/// the core was readied.
pub open spec fn select_inverse(ps: Seq<Process>, cfg: McConfig, s: McState, c: int, j: int) -> int {
    let qu = s.queues[c];
    if cfg.algorithm == MulticoreAlgorithm::Srt && qu.len() > 0 {
        moved_inverse(best_position(ps, s.remaining, qu, qu.len() as int), j)
    } else {
        j
    }
}

/// Readying core `c` changes only its queue, quantum and quantum holder; its
/// queue holds the same processes, and under Round Robin its front process
/// holds the quantum.
pub proof fn lemma_select_core(ps: Seq<Process>, cfg: McConfig, s: McState, c: int)
    requires
        0 <= c < s.queues.len(),
        s.quantum_left.len() == s.queues.len(),
        s.head.len() == s.queues.len(),
    ensures
        ({
            let t = select_core(ps, cfg, s, c);
            let len = s.queues[c].len();
            &&& t.time == s.time
            &&& t.next == s.next
            &&& t.remaining == s.remaining
            &&& t.slices == s.slices
            &&& t.migrations == s.migrations
            &&& t.queues == s.queues.update(c, t.queues[c])
            &&& t.quantum_left == s.quantum_left.update(c, t.quantum_left[c])
            &&& t.head == s.head.update(c, t.head[c])
            &&& t.queues[c].len() == len
            &&& forall|k: int|
                0 <= k < len ==> 0 <= #[trigger] select_index(ps, cfg, s, c, k) < len
                    && t.queues[c][k] == s.queues[c][select_index(ps, cfg, s, c, k)]
            &&& forall|k1: int, k2: int|
                0 <= k1 < len && 0 <= k2 < len && k1 != k2 ==> #[trigger] select_index(ps, cfg, s, c, k1)
                    != #[trigger] select_index(ps, cfg, s, c, k2)
            &&& forall|j: int|
                0 <= j < len ==> 0 <= #[trigger] select_inverse(ps, cfg, s, c, j) < len
                    && select_index(ps, cfg, s, c, select_inverse(ps, cfg, s, c, j)) == j
            &&& cfg.algorithm != MulticoreAlgorithm::Rr ==> t.head[c] == s.head[c] && t.quantum_left[c]
                == s.quantum_left[c]
            &&& cfg.algorithm == MulticoreAlgorithm::Rr && len > 0 ==> t.head[c] == Some(t.queues[c][0])
                && (t.quantum_left[c] == cfg.quantum || (s.head[c] == Some(s.queues[c][0])
                && t.quantum_left[c] == s.quantum_left[c]))
            &&& len == 0 ==> t.head[c] == s.head[c] && t.quantum_left[c] == s.quantum_left[c]
        }),
{
    let t = select_core(ps, cfg, s, c);
    let qu = s.queues[c];
    if qu.len() > 0 && cfg.algorithm == MulticoreAlgorithm::Srt {
        let b = best_position(ps, s.remaining, qu, qu.len() as int);
        lemma_best_position(ps, s.remaining, qu, qu.len() as int);
        if b != 0 {
            lemma_move_to_front(qu, b);
        }
        assert(t.queues =~= s.queues.update(c, t.queues[c]));
    } else {
        assert(t.queues =~= s.queues.update(c, t.queues[c]));
    }
    assert(t.quantum_left =~= s.quantum_left.update(c, t.quantum_left[c]));
    assert(t.head =~= s.head.update(c, t.head[c]));
}

/// Readying the first `k` cores readies each of them as if alone.
pub proof fn lemma_mc_select_shape(ps: Seq<Process>, cfg: McConfig, s: McState, k: int)
    requires
        0 <= k <= s.queues.len(),
        s.quantum_left.len() == s.queues.len(),
        s.head.len() == s.queues.len(),
    ensures
        ({
            let t = mc_select(ps, cfg, s, k);
            &&& t.time == s.time
            &&& t.next == s.next
            &&& t.remaining == s.remaining
            &&& t.slices == s.slices
            &&& t.migrations == s.migrations
            &&& t.queues.len() == s.queues.len()
            &&& t.quantum_left.len() == s.queues.len()
            &&& t.head.len() == s.queues.len()
            &&& forall|c: int|
                0 <= c < s.queues.len() ==> {
                    let u = select_core(ps, cfg, s, c);
                    &&& (c < k ==> #[trigger] t.queues[c] == u.queues[c] && t.quantum_left[c]
                        == u.quantum_left[c] && t.head[c] == u.head[c])
                    &&& (c >= k ==> t.queues[c] == s.queues[c] && t.quantum_left[c] == s.quantum_left[c]
                        && t.head[c] == s.head[c])
                }
        }),
    decreases k,
{
    if k > 0 {
        lemma_mc_select_shape(ps, cfg, s, k - 1);
        let p = mc_select(ps, cfg, s, k - 1);
        lemma_select_core(ps, cfg, p, k - 1);
        lemma_select_core(ps, cfg, s, k - 1);
        let t = mc_select(ps, cfg, s, k);
        assert(t == select_core(ps, cfg, p, k - 1));
        assert(p.queues[k - 1] == s.queues[k - 1]);
        assert(p.head[k - 1] == s.head[k - 1]);
        assert(p.quantum_left[k - 1] == s.quantum_left[k - 1]);
        assert forall|c: int| 0 <= c < s.queues.len() implies {
            let u = select_core(ps, cfg, s, c);
            &&& (c < k ==> #[trigger] t.queues[c] == u.queues[c] && t.quantum_left[c] == u.quantum_left[c]
                && t.head[c] == u.head[c])
            &&& (c >= k ==> t.queues[c] == s.queues[c] && t.quantum_left[c] == s.quantum_left[c]
                && t.head[c] == s.head[c])
        } by {
            if c != k - 1 {
                assert(t.queues[c] == p.queues[c]);
                assert(t.head[c] == p.head[c]);
                assert(t.quantum_left[c] == p.quantum_left[c]);
            }
        }
    }
}

/// Under Round Robin the front process of every busy core holds the quantum.
pub open spec fn armed(cfg: McConfig, s: McState) -> bool {
    forall|c: int|
        0 <= c < s.queues.len() && (#[trigger] s.queues[c]).len() > 0 && cfg.algorithm
            == MulticoreAlgorithm::Rr ==> s.head[c] == Some(s.queues[c][0])
}

/// Readying every core keeps the facts of `mc_inv` and arms every busy core.
pub proof fn lemma_mc_select(ps: Seq<Process>, o: Seq<int>, cfg: McConfig, s: McState)
    requires
        mc_inv(ps, o, cfg, s),
    ensures
        mc_inv(ps, o, cfg, mc_select(ps, cfg, s, cfg.cores)),
        armed(cfg, mc_select(ps, cfg, s, cfg.cores)),
        ({
            let t = mc_select(ps, cfg, s, cfg.cores);
            &&& t.time == s.time
            &&& t.next == s.next
            &&& t.remaining == s.remaining
            &&& t.slices == s.slices
            &&& t.migrations == s.migrations
            &&& forall|c: int| 0 <= c < cfg.cores ==> (#[trigger] t.queues[c]).len() == s.queues[c].len()
        }),
{
    let nc = cfg.cores;
    lemma_mc_select_shape(ps, cfg, s, nc);
    let t = mc_select(ps, cfg, s, nc);
    assert forall|c: int| 0 <= c < nc implies {
        let u = select_core(ps, cfg, s, c);
        &&& (#[trigger] t.queues[c]) == u.queues[c]
        &&& t.head[c] == u.head[c]
        &&& t.quantum_left[c] == u.quantum_left[c]
    } by {
        assert(t.queues[c] == select_core(ps, cfg, s, c).queues[c]);
    }
    assert forall|c: int| 0 <= c < nc implies {
        let len = s.queues[c].len();
        &&& (#[trigger] t.queues[c]).len() == len
        &&& forall|k: int|
            0 <= k < len ==> 0 <= #[trigger] select_index(ps, cfg, s, c, k) < len && t.queues[c][k]
                == s.queues[c][select_index(ps, cfg, s, c, k)]
        &&& forall|k1: int, k2: int|
            0 <= k1 < len && 0 <= k2 < len && k1 != k2 ==> #[trigger] select_index(ps, cfg, s, c, k1)
                != #[trigger] select_index(ps, cfg, s, c, k2)
        &&& forall|j: int|
            0 <= j < len ==> 0 <= #[trigger] select_inverse(ps, cfg, s, c, j) < len && select_index(
                ps,
                cfg,
                s,
                c,
                select_inverse(ps, cfg, s, c, j),
            ) == j
    } by {
        lemma_select_core(ps, cfg, s, c);
    }
    assert(queues_ok(ps, o, t)) by {
        assert forall|c: int, k: int| 0 <= c < t.queues.len() && 0 <= k < t.queues[c].len() implies {
            let x = #[trigger] t.queues[c][k];
            &&& 0 <= x < ps.len()
            &&& t.remaining[x] > 0
            &&& ps[x].arrival <= t.time
            &&& exists|m: int| 0 <= m < t.next && o[m] == x
        } by {
            let j = select_index(ps, cfg, s, c, k);
            assert(t.queues[c][k] == s.queues[c][j]);
        }
        assert forall|c1: int, k1: int, c2: int, k2: int|
            0 <= c1 < t.queues.len() && 0 <= k1 < t.queues[c1].len() && 0 <= c2 < t.queues.len() && 0
                <= k2 < t.queues[c2].len() && (c1 != c2 || k1 != k2) implies #[trigger] t.queues[c1][k1]
            != #[trigger] t.queues[c2][k2] by {
            let j1 = select_index(ps, cfg, s, c1, k1);
            let j2 = select_index(ps, cfg, s, c2, k2);
            assert(t.queues[c1][k1] == s.queues[c1][j1]);
            assert(t.queues[c2][k2] == s.queues[c2][j2]);
            if c1 == c2 {
                assert(j1 != j2);
            }
        }
    }
    assert(pending_ok(ps, o, t)) by {
        assert forall|i: int| 0 <= i < ps.len() && #[trigger] t.remaining[i] > 0 implies queued(t.queues, i)
            || exists|m: int| t.next <= m < ps.len() && o[m] == i by {
            if queued(s.queues, i) {
                let (c, j) = choose|c: int, j: int|
                    0 <= c < s.queues.len() && 0 <= j < s.queues[c].len() && #[trigger] s.queues[c][j] == i;
                let k = select_inverse(ps, cfg, s, c, j);
                assert(t.queues[c][k] == i);
            }
        }
    }
    assert(heads_ok(cfg, t)) by {
        assert forall|c: int| 0 <= c < t.head.len() implies (#[trigger] t.head[c] matches Some(x)
            ==> t.queues[c].len() > 0 && t.queues[c][0] == x && 0 < t.quantum_left[c] <= cfg.quantum
            && cfg.algorithm == MulticoreAlgorithm::Rr) by {
            lemma_select_core(ps, cfg, s, c);
            let u = select_core(ps, cfg, s, c);
            assert(t.queues[c] == u.queues[c]);
            assert(t.head[c] == u.head[c]);
            assert(t.quantum_left[c] == u.quantum_left[c]);
            let h = s.head[c];
            if s.queues[c].len() > 0 && cfg.algorithm == MulticoreAlgorithm::Rr {
                assert(u.head[c] == Some(u.queues[c][0]));
            } else {
                assert(u.head[c] == h);
                assert(h is None);
            }
        }
    }
    assert(armed(cfg, t)) by {
        assert forall|c: int| 0 <= c < t.queues.len() && (#[trigger] t.queues[c]).len() > 0 && cfg.algorithm
            == MulticoreAlgorithm::Rr implies t.head[c] == Some(t.queues[c][0]) by {
            lemma_select_core(ps, cfg, s, c);
        }
    }
    assert(timelines_ok(ps, t));
    assert(mc_inv(ps, o, cfg, t));
}

/// The next event comes after `lo` when every candidate does, and is no
/// later than any candidate: the next arrival, and on every busy core the
/// end of its front process and, under Round Robin, of its quantum.
pub proof fn lemma_mc_event(ps: Seq<Process>, o: Seq<int>, cfg: McConfig, s: McState, k: int, lo: int)
    requires
        0 <= k <= s.queues.len(),
        0 <= s.next <= ps.len(),
        s.next < ps.len() ==> ps[o[s.next]].arrival > lo,
        forall|c: int|
            0 <= c < k && (#[trigger] s.queues[c]).len() > 0 ==> s.time + s.remaining[s.queues[c][0]] > lo
                && (cfg.algorithm == MulticoreAlgorithm::Rr ==> s.time + s.quantum_left[c] > lo),
    ensures
        mc_event(ps, o, cfg, s, k) is None <==> (s.next == ps.len() && forall|c: int|
            0 <= c < k ==> (#[trigger] s.queues[c]).len() == 0),
        mc_event(ps, o, cfg, s, k) matches Some(ev) ==> {
            &&& ev > lo
            &&& s.next < ps.len() ==> ev <= ps[o[s.next]].arrival
            &&& (s.next < ps.len() && forall|c: int| 0 <= c < k ==> (#[trigger] s.queues[c]).len() == 0)
                ==> ev == ps[o[s.next]].arrival
            &&& forall|c: int|
                0 <= c < k && (#[trigger] s.queues[c]).len() > 0 ==> ev <= s.time + s.remaining[s.queues[c][0]]
                    && (cfg.algorithm == MulticoreAlgorithm::Rr ==> ev <= s.time + s.quantum_left[c])
        },
    decreases k,
{
    if k > 0 {
        lemma_mc_event(ps, o, cfg, s, k - 1, lo);
        let e = mc_event(ps, o, cfg, s, k - 1);
        let ce = core_event(cfg, s, k - 1);
        let r = mc_event(ps, o, cfg, s, k);
        assert(r == min_opt(e, ce));
        if r is None {
            assert forall|c: int| 0 <= c < k implies (#[trigger] s.queues[c]).len() == 0 by {
                if c == k - 1 {
                    assert(ce is None);
                }
            }
        }
        if forall|c: int| 0 <= c < k ==> (#[trigger] s.queues[c]).len() == 0 {
            assert(s.queues[k - 1].len() == 0);
            assert forall|c: int| 0 <= c < k - 1 implies (#[trigger] s.queues[c]).len() == 0 by {
                assert(s.queues[c].len() == 0);
            }
        }
    }
}

/// Process `i` is at the front of one of the first `k` queues.
pub open spec fn is_front(qs: Seq<Seq<int>>, i: int, k: int) -> bool {
    exists|c: int| 0 <= c < k && qs[c].len() > 0 && #[trigger] qs[c][0] == i
}

/// One of the first `k` queues is not empty.
pub open spec fn some_busy(qs: Seq<Seq<int>>, k: int) -> bool {
    exists|c: int| 0 <= c < k && (#[trigger] qs[c]).len() > 0
}

/// No two busy cores have the same front process, and every front process
/// has an entry in `rem`.
pub open spec fn fronts_ok(qs: Seq<Seq<int>>, rem: Seq<int>) -> bool {
    &&& forall|c: int| 0 <= c < qs.len() && (#[trigger] qs[c]).len() > 0 ==> 0 <= qs[c][0] < rem.len()
    &&& forall|c1: int, c2: int|
        0 <= c1 < qs.len() && 0 <= c2 < qs.len() && c1 != c2 && (#[trigger] qs[c1]).len() > 0
            && (#[trigger] qs[c2]).len() > 0 ==> qs[c1][0] != qs[c2][0]
}

/// Running the first `k` cores up to `ev`: each busy one adds a slice of its
/// front process to its timeline and takes the time from its front
/// process's work and, under Round Robin, from its quantum.
pub proof fn lemma_mc_apply_shape(ps: Seq<Process>, cfg: McConfig, s: McState, ev: int, k: int)
    requires
        0 <= k <= s.queues.len(),
        s.slices.len() == s.queues.len(),
        s.quantum_left.len() == s.queues.len(),
        fronts_ok(s.queues, s.remaining),
        s.time <= ev,
    ensures
        ({
            let t = mc_apply(ps, cfg, s, ev, k);
            let step = ev - s.time;
            &&& t.time == s.time
            &&& t.next == s.next
            &&& t.queues == s.queues
            &&& t.head == s.head
            &&& t.migrations == s.migrations
            &&& t.slices.len() == s.slices.len()
            &&& t.quantum_left.len() == s.quantum_left.len()
            &&& t.remaining.len() == s.remaining.len()
            &&& forall|c: int|
                0 <= c < s.queues.len() ==> #[trigger] t.slices[c] == if c < k && s.queues[c].len() > 0 {
                    append_slice_spec(s.slices[c], ps[s.queues[c][0]].name@, s.time, ev)
                } else {
                    s.slices[c]
                }
            &&& forall|c: int|
                0 <= c < s.queues.len() ==> #[trigger] t.quantum_left[c] == if c < k && s.queues[c].len() > 0
                    && cfg.algorithm == MulticoreAlgorithm::Rr {
                    s.quantum_left[c] - step
                } else {
                    s.quantum_left[c]
                }
            &&& forall|i: int|
                0 <= i < s.remaining.len() ==> #[trigger] t.remaining[i] == if is_front(s.queues, i, k) {
                    s.remaining[i] - step
                } else {
                    s.remaining[i]
                }
            &&& sum_of(t.remaining) <= sum_of(s.remaining)
            &&& some_busy(s.queues, k) ==> sum_of(t.remaining) <= sum_of(s.remaining) - step
        }),
    decreases k,
{
    if k > 0 {
        lemma_mc_apply_shape(ps, cfg, s, ev, k - 1);
        let p = mc_apply(ps, cfg, s, ev, k - 1);
        let t = mc_apply(ps, cfg, s, ev, k);
        let step = ev - s.time;
        let c0 = k - 1;
        assert(t == apply_core(ps, cfg, p, ev, c0));
        if s.queues[c0].len() > 0 {
            let x = s.queues[c0][0];
            assert(!is_front(s.queues, x, k - 1)) by {
                if is_front(s.queues, x, k - 1) {
                    let c = choose|c: int| 0 <= c < k - 1 && s.queues[c].len() > 0 && #[trigger] s.queues[c][0] == x;
                    assert(s.queues[c][0] != s.queues[c0][0]);
                }
            }
            assert(p.remaining[x] == s.remaining[x]);
            lemma_sum_update(p.remaining, x, p.remaining[x] - step);
            assert forall|i: int| 0 <= i < s.remaining.len() implies #[trigger] t.remaining[i] == if is_front(
                s.queues,
                i,
                k,
            ) {
                s.remaining[i] - step
            } else {
                s.remaining[i]
            } by {
                if i == x {
                    assert(is_front(s.queues, i, k)) by {
                        assert(s.queues[c0][0] == i);
                    }
                } else {
                    assert(t.remaining[i] == p.remaining[i]);
                    if is_front(s.queues, i, k) {
                        let c = choose|c: int| 0 <= c < k && s.queues[c].len() > 0 && #[trigger] s.queues[c][0] == i;
                        assert(c != c0);
                        assert(is_front(s.queues, i, k - 1));
                    }
                    if is_front(s.queues, i, k - 1) {
                        let c = choose|c: int| 0 <= c < k - 1 && s.queues[c].len() > 0 && #[trigger] s.queues[c][0] == i;
                        assert(is_front(s.queues, i, k));
                    }
                }
            }
            assert(some_busy(s.queues, k));
        } else {
            assert forall|i: int| 0 <= i < s.remaining.len() implies #[trigger] t.remaining[i] == if is_front(
                s.queues,
                i,
                k,
            ) {
                s.remaining[i] - step
            } else {
                s.remaining[i]
            } by {
                if is_front(s.queues, i, k) {
                    let c = choose|c: int| 0 <= c < k && s.queues[c].len() > 0 && #[trigger] s.queues[c][0] == i;
                    assert(c != c0);
                    assert(is_front(s.queues, i, k - 1));
                }
                if is_front(s.queues, i, k - 1) {
                    let c = choose|c: int| 0 <= c < k - 1 && s.queues[c].len() > 0 && #[trigger] s.queues[c][0] == i;
                    assert(is_front(s.queues, i, k));
                }
            }
            if some_busy(s.queues, k) {
                let c = choose|c: int| 0 <= c < k && (#[trigger] s.queues[c]).len() > 0;
                assert(c != c0);
                assert(some_busy(s.queues, k - 1));
            }
        }
    }
}

/// Settling the first `k` cores settles each of them as if alone.
pub proof fn lemma_mc_settle_shape(cfg: McConfig, s: McState, k: int)
    requires
        0 <= k <= s.queues.len(),
        s.head.len() == s.queues.len(),
    ensures
        ({
            let t = mc_settle(cfg, s, k);
            &&& t.time == s.time
            &&& t.next == s.next
            &&& t.remaining == s.remaining
            &&& t.slices == s.slices
            &&& t.quantum_left == s.quantum_left
            &&& t.migrations == s.migrations
            &&& t.queues.len() == s.queues.len()
            &&& t.head.len() == s.queues.len()
            &&& forall|c: int|
                #![trigger t.queues[c]]
                #![trigger t.head[c]]
                0 <= c < k ==> t.queues[c] == settle_core(cfg, s, c).queues[c] && t.head[c] == settle_core(
                    cfg,
                    s,
                    c,
                ).head[c]
            &&& forall|c: int|
                #![trigger t.queues[c]]
                #![trigger t.head[c]]
                k <= c < s.queues.len() ==> t.queues[c] == s.queues[c] && t.head[c] == s.head[c]
        }),
    decreases k,
{
    if k > 0 {
        lemma_mc_settle_shape(cfg, s, k - 1);
        let p = mc_settle(cfg, s, k - 1);
        let t = mc_settle(cfg, s, k);
        assert(t == settle_core(cfg, p, k - 1));
        assert(p.queues[k - 1] == s.queues[k - 1]);
        assert forall|c: int| 0 <= c < s.queues.len() && c != k - 1 implies #[trigger] t.queues[c]
            == p.queues[c] && t.head[c] == p.head[c] by {}
        assert(t.queues[k - 1] == settle_core(cfg, s, k - 1).queues[k - 1]);
        assert(t.head[k - 1] == settle_core(cfg, s, k - 1).head[k - 1]);
    }
}

/// The front process of core `c` has no work left.
pub open spec fn front_done(u: McState, c: int) -> bool {
    u.queues[c].len() > 0 && u.remaining[u.queues[c][0]] == 0
}

/// The front process of core `c` goes to the back of the queue: it has work
/// left and its Round Robin quantum ran out.
pub open spec fn front_rotates(cfg: McConfig, u: McState, c: int) -> bool {
    u.queues[c].len() > 0 && u.remaining[u.queues[c][0]] != 0 && cfg.algorithm
        == MulticoreAlgorithm::Rr && u.quantum_left[c] == 0
}

/// Where the process at position `k` of the queue of core `c` stood before
/// the queue was settled.
pub open spec fn settle_index(cfg: McConfig, u: McState, c: int, k: int) -> int {
    if front_done(u, c) {
        k + 1
    } else if front_rotates(cfg, u, c) {
        if k + 1 < u.queues[c].len() {
            k + 1
        } else {
            0
        }
    } else {
        k
    }
}

/// Where the process at position `j` of the queue of core `c` stands after
/// the queue was settled.
pub open spec fn settle_inverse(cfg: McConfig, u: McState, c: int, j: int) -> int {
    if front_done(u, c) {
        j - 1
    } else if front_rotates(cfg, u, c) {
        if j == 0 {
            u.queues[c].len() - 1
        } else {
            j - 1
        }
    } else {
        j
    }
}

/// Settling core `c` changes only its queue and quantum holder: a finished
/// front process leaves, a front process out of quantum goes to the back.
pub proof fn lemma_settle_core(cfg: McConfig, u: McState, c: int)
    requires
        0 <= c < u.queues.len(),
        u.head.len() == u.queues.len(),
    ensures
        ({
            let t = settle_core(cfg, u, c);
            let len = u.queues[c].len() as int;
            let tl = t.queues[c].len() as int;
            &&& t.time == u.time
            &&& t.next == u.next
            &&& t.remaining == u.remaining
            &&& t.slices == u.slices
            &&& t.quantum_left == u.quantum_left
            &&& t.migrations == u.migrations
            &&& t.queues == u.queues.update(c, t.queues[c])
            &&& t.head == u.head.update(c, t.head[c])
            &&& tl == if front_done(u, c) {
                len - 1
            } else {
                len
            }
            &&& forall|k: int|
                0 <= k < tl ==> 0 <= #[trigger] settle_index(cfg, u, c, k) < len && t.queues[c][k]
                    == u.queues[c][settle_index(cfg, u, c, k)] && (front_done(u, c) ==> settle_index(
                    cfg,
                    u,
                    c,
                    k,
                ) >= 1)
            &&& forall|k1: int, k2: int|
                0 <= k1 < tl && 0 <= k2 < tl && k1 != k2 ==> #[trigger] settle_index(cfg, u, c, k1)
                    != #[trigger] settle_index(cfg, u, c, k2)
            &&& forall|j: int|
                0 <= j < len && !(front_done(u, c) && j == 0) ==> 0 <= #[trigger] settle_inverse(
                    cfg,
                    u,
                    c,
                    j,
                ) < tl && settle_index(cfg, u, c, settle_inverse(cfg, u, c, j)) == j
            &&& t.head[c] == if front_done(u, c) || front_rotates(cfg, u, c) {
                None
            } else {
                u.head[c]
            }
        }),
{
    let t = settle_core(cfg, u, c);
    let qu = u.queues[c];
    if front_done(u, c) {
        assert(t.queues[c] =~= qu.drop_first());
    } else if front_rotates(cfg, u, c) {
        assert(t.queues[c] =~= qu.drop_first().push(qu[0]));
    }
    assert(t.queues =~= u.queues.update(c, t.queues[c]));
    assert(t.head =~= u.head.update(c, t.head[c]));
}

/// When the run time of `name` changes on core `c0` alone, by `d`, its
/// total run time changes by `d`.
pub proof fn lemma_total_run_time_pointwise(sl: Seq<Seq<SliceView>>, tl: Seq<Seq<SliceView>>, name: Seq<char>, c0: int, d: int)
    requires
        sl.len() == tl.len(),
        forall|c: int|
            0 <= c < sl.len() ==> run_time(#[trigger] tl[c], name) == run_time(sl[c], name) + if c == c0 {
                d
            } else {
                0
            },
    ensures
        total_run_time(tl, name) == total_run_time(sl, name) + if 0 <= c0 < sl.len() {
            d
        } else {
            0
        },
    decreases sl.len(),
{
    if sl.len() > 0 {
        let n = sl.len() - 1;
        assert forall|c: int| 0 <= c < n implies run_time(#[trigger] tl.drop_last()[c], name) == run_time(
            sl.drop_last()[c],
            name,
        ) + if c == c0 {
            d
        } else {
            0
        } by {
            assert(tl.drop_last()[c] == tl[c]);
            assert(sl.drop_last()[c] == sl[c]);
        }
        lemma_total_run_time_pointwise(sl.drop_last(), tl.drop_last(), name, c0, d);
        assert(run_time(tl[n], name) == run_time(sl[n], name) + if n == c0 {
            d
        } else {
            0
        });
    }
}

/// What running up to `ev` needs: the facts of `mc_inv`, armed cores, some
/// busy core, and `ev` after the current time but no later than the end of
/// any front process or Round Robin quantum.
pub open spec fn run_ready(ps: Seq<Process>, o: Seq<int>, cfg: McConfig, s: McState, ev: int) -> bool {
    &&& mc_inv(ps, o, cfg, s)
    &&& armed(cfg, s)
    &&& some_busy(s.queues, cfg.cores)
    &&& s.time < ev
    &&& forall|c: int|
        0 <= c < cfg.cores && (#[trigger] s.queues[c]).len() > 0 ==> ev <= s.time + s.remaining[s.queues[c][0]]
            && (cfg.algorithm == MulticoreAlgorithm::Rr ==> ev <= s.time + s.quantum_left[c])
}

/// The state after running up to `ev`, in terms of the state before.
pub open spec fn phase_shape(ps: Seq<Process>, cfg: McConfig, s: McState, ev: int, v: McState) -> bool {
    let nc = cfg.cores;
    let u = applied(ps, cfg, s, ev);
    let step = ev - s.time;
    &&& v.time == ev
    &&& v.next == s.next
    &&& v.migrations == s.migrations
    &&& v.queues.len() == nc
    &&& v.head.len() == nc
    &&& v.quantum_left.len() == nc
    &&& v.slices.len() == nc
    &&& v.remaining.len() == s.remaining.len()
    &&& u.queues == s.queues
    &&& u.head == s.head
    &&& u.remaining == v.remaining
    &&& u.quantum_left == v.quantum_left
    &&& forall|i: int|
        0 <= i < s.remaining.len() ==> #[trigger] v.remaining[i] == if is_front(s.queues, i, nc) {
            s.remaining[i] - step
        } else {
            s.remaining[i]
        }
    &&& forall|c: int|
        0 <= c < nc ==> #[trigger] v.slices[c] == if s.queues[c].len() > 0 {
            append_slice_spec(s.slices[c], ps[s.queues[c][0]].name@, s.time, ev)
        } else {
            s.slices[c]
        }
    &&& forall|c: int|
        0 <= c < nc ==> #[trigger] v.quantum_left[c] == if s.queues[c].len() > 0 && cfg.algorithm
            == MulticoreAlgorithm::Rr {
            s.quantum_left[c] - step
        } else {
            s.quantum_left[c]
        }
    &&& forall|c: int|
        #![trigger v.queues[c]]
        #![trigger v.head[c]]
        0 <= c < nc ==> {
            let len = s.queues[c].len() as int;
            let tl = v.queues[c].len() as int;
            &&& tl == if front_done(u, c) {
                len - 1
            } else {
                len
            }
            &&& forall|k: int|
                0 <= k < tl ==> 0 <= #[trigger] settle_index(cfg, u, c, k) < len && v.queues[c][k]
                    == s.queues[c][settle_index(cfg, u, c, k)] && (front_done(u, c) ==> settle_index(
                    cfg,
                    u,
                    c,
                    k,
                ) >= 1)
            &&& forall|k1: int, k2: int|
                0 <= k1 < tl && 0 <= k2 < tl && k1 != k2 ==> #[trigger] settle_index(cfg, u, c, k1)
                    != #[trigger] settle_index(cfg, u, c, k2)
            &&& forall|j: int|
                0 <= j < len && !(front_done(u, c) && j == 0) ==> 0 <= #[trigger] settle_inverse(
                    cfg,
                    u,
                    c,
                    j,
                ) < tl && settle_index(cfg, u, c, settle_inverse(cfg, u, c, j)) == j
            &&& v.head[c] == if front_done(u, c) || front_rotates(cfg, u, c) {
                None
            } else {
                s.head[c]
            }
            &&& (!front_done(u, c) && !front_rotates(cfg, u, c)) ==> v.queues[c] == s.queues[c]
        }
}

/// Running up to `ev` has the shape `phase_shape` describes, and does at
/// least `ev - s.time` of work.
pub proof fn lemma_phase_shape(ps: Seq<Process>, o: Seq<int>, cfg: McConfig, s: McState, ev: int)
    requires
        run_ready(ps, o, cfg, s, ev),
    ensures
        phase_shape(ps, cfg, s, ev, run_phase(ps, cfg, s, ev)),
        fronts_ok(s.queues, s.remaining),
        sum_of(run_phase(ps, cfg, s, ev).remaining) <= sum_of(s.remaining) - (ev - s.time),
{
    let nc = cfg.cores;
    assert(fronts_ok(s.queues, s.remaining)) by {
        assert forall|c1: int, c2: int|
            0 <= c1 < s.queues.len() && 0 <= c2 < s.queues.len() && c1 != c2 && (#[trigger] s.queues[c1]).len()
                > 0 && (#[trigger] s.queues[c2]).len() > 0 implies s.queues[c1][0] != s.queues[c2][0] by {
            assert(s.queues[c1][0] != s.queues[c2][0]);
        }
        assert forall|c: int| 0 <= c < s.queues.len() && (#[trigger] s.queues[c]).len() > 0 implies 0
            <= s.queues[c][0] < s.remaining.len() by {
            assert(0 <= s.queues[c][0] < ps.len());
        }
    }
    lemma_mc_apply_shape(ps, cfg, s, ev, nc);
    let u = applied(ps, cfg, s, ev);
    lemma_mc_settle_shape(cfg, u, nc);
    let v = run_phase(ps, cfg, s, ev);
    assert forall|c: int|
        #![trigger v.queues[c]]
        #![trigger v.head[c]]
        0 <= c < nc implies {
            let len = s.queues[c].len() as int;
            let tl = v.queues[c].len() as int;
            &&& tl == if front_done(u, c) {
                len - 1
            } else {
                len
            }
            &&& forall|k: int|
                0 <= k < tl ==> 0 <= #[trigger] settle_index(cfg, u, c, k) < len && v.queues[c][k]
                    == s.queues[c][settle_index(cfg, u, c, k)] && (front_done(u, c) ==> settle_index(
                    cfg,
                    u,
                    c,
                    k,
                ) >= 1)
            &&& forall|k1: int, k2: int|
                0 <= k1 < tl && 0 <= k2 < tl && k1 != k2 ==> #[trigger] settle_index(cfg, u, c, k1)
                    != #[trigger] settle_index(cfg, u, c, k2)
            &&& forall|j: int|
                0 <= j < len && !(front_done(u, c) && j == 0) ==> 0 <= #[trigger] settle_inverse(
                    cfg,
                    u,
                    c,
                    j,
                ) < tl && settle_index(cfg, u, c, settle_inverse(cfg, u, c, j)) == j
            &&& v.head[c] == if front_done(u, c) || front_rotates(cfg, u, c) {
                None
            } else {
                s.head[c]
            }
            &&& (!front_done(u, c) && !front_rotates(cfg, u, c)) ==> v.queues[c] == s.queues[c]
        } by {
        lemma_settle_core(cfg, u, c);
        assert(v.queues[c] == settle_core(cfg, u, c).queues[c]);
        assert(v.head[c] == settle_core(cfg, u, c).head[c]);
    }
    assert(some_busy(s.queues, nc));
}

proof fn lemma_is_front(s: McState, c: int)
    requires
        0 <= c < s.queues.len(),
        s.queues[c].len() > 0,
    ensures
        is_front(s.queues, s.queues[c][0], s.queues.len() as int),
{
}

/// A process queued behind the front of its core is at no front.
proof fn lemma_not_front(ps: Seq<Process>, o: Seq<int>, s: McState, c: int, j: int)
    requires
        queues_ok(ps, o, s),
        0 <= c < s.queues.len(),
        1 <= j < s.queues[c].len(),
    ensures
        !is_front(s.queues, s.queues[c][j], s.queues.len() as int),
{
    if is_front(s.queues, s.queues[c][j], s.queues.len() as int) {
        let c2 = choose|c2: int|
            0 <= c2 < s.queues.len() && s.queues[c2].len() > 0 && #[trigger] s.queues[c2][0] == s.queues[c][j];
        assert(s.queues[c2][0] != s.queues[c][j]);
    }
}

/// Running up to `ev` keeps the facts about the queues and quantum holders.
proof fn lemma_phase_queues(ps: Seq<Process>, o: Seq<int>, cfg: McConfig, s: McState, ev: int, v: McState)
    requires
        run_ready(ps, o, cfg, s, ev),
        phase_shape(ps, cfg, s, ev, v),
        fronts_ok(s.queues, s.remaining),
    ensures
        queues_ok(ps, o, v),
        pending_ok(ps, o, v),
        heads_ok(cfg, v),
{
    let nc = cfg.cores;
    let u = applied(ps, cfg, s, ev);
    let step = ev - s.time;
    let n = ps.len();
    assert forall|c: int| 0 <= c < nc && (#[trigger] s.queues[c]).len() > 0 implies u.remaining[s.queues[c][0]]
        == s.remaining[s.queues[c][0]] - step && u.remaining[s.queues[c][0]] >= 0 by {
        lemma_is_front(s, c);
    }
    assert(queues_ok(ps, o, v)) by {
        assert forall|c: int, k: int| 0 <= c < v.queues.len() && 0 <= k < v.queues[c].len() implies {
            let x = #[trigger] v.queues[c][k];
            &&& 0 <= x < ps.len()
            &&& v.remaining[x] > 0
            &&& ps[x].arrival <= v.time
            &&& exists|m: int| 0 <= m < v.next && o[m] == x
        } by {
            let j = settle_index(cfg, u, c, k);
            assert(v.queues[c][k] == s.queues[c][j]);
            let x = s.queues[c][j];
            if j >= 1 {
                lemma_not_front(ps, o, s, c, j);
            } else {
                assert(!front_done(u, c));
            }
        }
        assert forall|c1: int, k1: int, c2: int, k2: int|
            0 <= c1 < v.queues.len() && 0 <= k1 < v.queues[c1].len() && 0 <= c2 < v.queues.len() && 0
                <= k2 < v.queues[c2].len() && (c1 != c2 || k1 != k2) implies #[trigger] v.queues[c1][k1]
            != #[trigger] v.queues[c2][k2] by {
            let j1 = settle_index(cfg, u, c1, k1);
            let j2 = settle_index(cfg, u, c2, k2);
            assert(v.queues[c1][k1] == s.queues[c1][j1]);
            assert(v.queues[c2][k2] == s.queues[c2][j2]);
            if c1 == c2 {
                assert(j1 != j2);
            }
        }
    }
    assert(pending_ok(ps, o, v)) by {
        assert forall|m: int| v.next <= m < n implies v.remaining[#[trigger] o[m]] == ps[o[m]].service by {
            assert(0 <= o[m] < n);
            if is_front(s.queues, o[m], nc) {
                let c = choose|c: int| 0 <= c < nc && s.queues[c].len() > 0 && #[trigger] s.queues[c][0] == o[m];
                let m2 = choose|m2: int| 0 <= m2 < s.next && o[m2] == s.queues[c][0];
                lemma_arrival_order_distinct(ps, o, m2, m);
            }
        }
        assert forall|i: int| 0 <= i < n && #[trigger] v.remaining[i] > 0 implies queued(v.queues, i)
            || exists|m: int| v.next <= m < n && o[m] == i by {
            assert(s.remaining[i] > 0);
            if queued(s.queues, i) {
                let (c, j) = choose|c: int, j: int|
                    0 <= c < s.queues.len() && 0 <= j < s.queues[c].len() && #[trigger] s.queues[c][j] == i;
                if j == 0 {
                    assert(!front_done(u, c));
                }
                let k = settle_inverse(cfg, u, c, j);
                assert(v.queues[c][k] == i);
            }
        }
    }
    assert(heads_ok(cfg, v)) by {
        assert forall|c: int| 0 <= c < v.head.len() implies (#[trigger] v.head[c] matches Some(x)
            ==> v.queues[c].len() > 0 && v.queues[c][0] == x && 0 < v.quantum_left[c] <= cfg.quantum
            && cfg.algorithm == MulticoreAlgorithm::Rr) by {
            let h = s.head[c];
            if v.head[c] is Some {
                assert(!front_done(u, c) && !front_rotates(cfg, u, c));
                assert(v.head[c] == h);
                assert(s.queues[c].len() > 0);
                assert(v.queues[c] == s.queues[c]);
            }
        }
    }
}

/// `o`, if any, is at most `e`.
pub open spec fn ends_by(o: Option<int>, e: int) -> bool {
    match o {
        Some(x) => x <= e,
        None => true,
    }
}

/// Adding a stretch of another process leaves the latest end of `name`.
proof fn lemma_latest_end_append_other(s: Seq<SliceView>, m: Seq<char>, t: int, e: int, name: Seq<char>)
    requires
        m != name,
    ensures
        latest_end(append_slice_spec(s, m, t, e), name) == latest_end(s, name),
{
    let a = append_slice_spec(s, m, t, e);
    if t == e {
    } else if s.len() > 0 && s.last().process == m && s.last().end == t {
        assert(a.drop_last() =~= s.drop_last());
    } else {
        assert(a.drop_last() =~= s);
    }
}

/// The latest end of `name` in a timeline whose slices end by `bound`.
proof fn lemma_latest_end_le(s: Seq<SliceView>, name: Seq<char>, bound: int)
    requires
        slices_within(s, bound),
    ensures
        latest_end(s, name) matches Some(x) ==> x <= bound,
    decreases s.len(),
{
    if s.len() > 0 {
        assert(s.last() == s[s.len() - 1]);
        assert(slices_within(s.drop_last(), bound)) by {
            assert forall|k: int| 0 <= k < s.len() - 1 implies 0 <= (#[trigger] s.drop_last()[k]).start
                <= s.drop_last()[k].end <= bound by {
                assert(s.drop_last()[k] == s[k]);
            }
        }
        lemma_latest_end_le(s.drop_last(), name, bound);
    }
}

/// Adding a stretch of `name` after every slice ends makes its end the
/// latest end of `name`.
proof fn lemma_latest_end_append_same(s: Seq<SliceView>, name: Seq<char>, t: int, e: int)
    requires
        slices_within(s, t),
        t < e,
    ensures
        latest_end(append_slice_spec(s, name, t, e), name) == Some(e),
{
    let a = append_slice_spec(s, name, t, e);
    if s.len() > 0 && s.last().process == name && s.last().end == t {
        assert(a.drop_last() =~= s.drop_last());
        assert(slices_within(s.drop_last(), t)) by {
            assert forall|k: int| 0 <= k < s.len() - 1 implies 0 <= (#[trigger] s.drop_last()[k]).start
                <= s.drop_last()[k].end <= t by {
                assert(s.drop_last()[k] == s[k]);
            }
        }
        lemma_latest_end_le(s.drop_last(), name, t);
    } else {
        assert(a.drop_last() =~= s);
        lemma_latest_end_le(s, name, t);
    }
}

/// When no timeline changes the latest end of `name`, neither does the
/// whole.
proof fn lemma_latest_end_on_cores_same(sl: Seq<Seq<SliceView>>, tl: Seq<Seq<SliceView>>, name: Seq<char>)
    requires
        sl.len() == tl.len(),
        forall|c: int| 0 <= c < sl.len() ==> latest_end(#[trigger] tl[c], name) == latest_end(sl[c], name),
    ensures
        latest_end_on_cores(tl, name) == latest_end_on_cores(sl, name),
    decreases sl.len(),
{
    if sl.len() > 0 {
        assert forall|c: int| 0 <= c < sl.len() - 1 implies latest_end(#[trigger] tl.drop_last()[c], name)
            == latest_end(sl.drop_last()[c], name) by {
            assert(tl.drop_last()[c] == tl[c]);
            assert(sl.drop_last()[c] == sl[c]);
        }
        lemma_latest_end_on_cores_same(sl.drop_last(), tl.drop_last(), name);
        assert(latest_end(tl[tl.len() - 1], name) == latest_end(sl[sl.len() - 1], name));
    }
}

/// When one timeline ends `name` at `e` and every other ends it no later,
/// the latest end over all of them is `e`.
proof fn lemma_latest_end_on_cores_top(tl: Seq<Seq<SliceView>>, name: Seq<char>, c0: int, e: int)
    requires
        0 <= c0 < tl.len(),
        latest_end(tl[c0], name) == Some(e),
        forall|c: int|
            0 <= c < tl.len() && c != c0 ==> ends_by(#[trigger] latest_end(tl[c], name), e),
    ensures
        latest_end_on_cores(tl, name) == Some(e),
    decreases tl.len(),
{
    let l = tl.len() - 1;
    if c0 < l {
        assert forall|c: int| 0 <= c < tl.drop_last().len() && c != c0 implies ends_by(#[trigger] latest_end(tl.drop_last()[c], name), e) by {
            assert(tl.drop_last()[c] == tl[c]);
        }
        assert(tl.drop_last()[c0] == tl[c0]);
        lemma_latest_end_on_cores_top(tl.drop_last(), name, c0, e);
        assert(ends_by(latest_end(tl[l], name), e));
    } else {
        lemma_latest_end_on_cores_below(tl.drop_last(), name, e);
    }
}

proof fn lemma_latest_end_on_cores_below(tl: Seq<Seq<SliceView>>, name: Seq<char>, e: int)
    requires
        forall|c: int| 0 <= c < tl.len() ==> ends_by(#[trigger] latest_end(tl[c], name), e),
    ensures
        latest_end_on_cores(tl, name) matches Some(x) ==> x <= e,
    decreases tl.len(),
{
    if tl.len() > 0 {
        assert forall|c: int| 0 <= c < tl.drop_last().len() implies ends_by(#[trigger] latest_end(tl.drop_last()[c], name), e) by {
            assert(tl.drop_last()[c] == tl[c]);
        }
        lemma_latest_end_on_cores_below(tl.drop_last(), name, e);
        assert(ends_by(latest_end(tl[tl.len() - 1], name), e));
    }
}

proof fn lemma_latest_end_on_cores_le(sl: Seq<Seq<SliceView>>, name: Seq<char>, bound: int)
    requires
        forall|c: int| 0 <= c < sl.len() ==> slices_within(#[trigger] sl[c], bound),
    ensures
        latest_end_on_cores(sl, name) matches Some(x) ==> x <= bound,
{
    assert forall|c: int| 0 <= c < sl.len() implies (#[trigger] latest_end(sl[c], name)) matches Some(x)
        ==> x <= bound by {
        lemma_latest_end_le(sl[c], name, bound);
    }
    lemma_latest_end_on_cores_below(sl, name, bound);
}

/// Running up to `ev` keeps the facts about the timelines and the work
/// done.
proof fn lemma_phase_timelines(ps: Seq<Process>, o: Seq<int>, cfg: McConfig, s: McState, ev: int, v: McState)
    requires
        run_ready(ps, o, cfg, s, ev),
        phase_shape(ps, cfg, s, ev, v),
        fronts_ok(s.queues, s.remaining),
    ensures
        timelines_ok(ps, v),
        forall|i: int|
            0 <= i < ps.len() ==> total_run_time(v.slices, (#[trigger] ps[i]).name@) + v.remaining[i]
                == ps[i].service,
        forall|i: int| 0 <= i < ps.len() ==> 0 <= #[trigger] v.remaining[i] <= ps[i].service,
        forall|i: int| 0 <= i < ps.len() ==> runs_within(v.slices, #[trigger] ps[i]),
{
    let nc = cfg.cores;
    let step = ev - s.time;
    let n = ps.len();
    assert forall|i: int| 0 <= i < n implies runs_within(v.slices, #[trigger] ps[i]) by {
        lemma_phase_runs_within(ps, o, cfg, s, ev, v, i);
    }
    assert(timelines_ok(ps, v)) by {
        assert forall|c: int| 0 <= c < v.slices.len() implies chronological(#[trigger] v.slices[c])
            && slices_within(v.slices[c], v.time) && slices_after_arrival(ps, v.slices[c]) by {
            if s.queues[c].len() > 0 {
                let x = s.queues[c][0];
                lemma_append_chronological(s.slices[c], ps[x].name@, s.time, ev);
                lemma_append_after_arrival(ps, s.slices[c], x, s.time, ev);
            } else {
                assert(v.slices[c] == s.slices[c]);
                assert forall|k: int| 0 <= k < v.slices[c].len() implies 0 <= (#[trigger] v.slices[c][k]).start
                    <= v.slices[c][k].end <= ev by {
                    assert(slices_within(s.slices[c], s.time));
                }
            }
        }
    }
    assert forall|i: int| 0 <= i < n implies 0 <= #[trigger] v.remaining[i] <= ps[i].service by {
        if is_front(s.queues, i, nc) {
            let c = choose|c: int| 0 <= c < nc && s.queues[c].len() > 0 && #[trigger] s.queues[c][0] == i;
        }
    }
    assert forall|i: int| 0 <= i < n implies total_run_time(v.slices, (#[trigger] ps[i]).name@) + v.remaining[i]
        == ps[i].service by {
        let name = ps[i].name@;
        let c0 = if is_front(s.queues, i, nc) {
            choose|c: int| 0 <= c < nc && s.queues[c].len() > 0 && #[trigger] s.queues[c][0] == i
        } else {
            -1
        };
        assert forall|c: int| 0 <= c < s.slices.len() implies run_time(#[trigger] v.slices[c], name) == run_time(
            s.slices[c],
            name,
        ) + if c == c0 {
            step
        } else {
            0
        } by {
            if s.queues[c].len() > 0 {
                let x = s.queues[c][0];
                lemma_append_run_time(s.slices[c], ps[x].name@, s.time, ev, name);
                if x == i {
                    if c != c0 {
                        assert(s.queues[c0][0] == i);
                        assert(s.queues[c][0] != s.queues[c0][0]);
                    }
                } else {
                    assert(ps[x].name@ != name);
                    if c == c0 {
                        assert(s.queues[c0][0] == i);
                    }
                }
            } else {
                if c == c0 {
                    assert(s.queues[c0].len() > 0);
                }
            }
        }
        lemma_total_run_time_pointwise(s.slices, v.slices, name, c0, step);
    }
}

proof fn lemma_phase_runs_within(ps: Seq<Process>, o: Seq<int>, cfg: McConfig, s: McState, ev: int, v: McState, i: int)
    requires
        run_ready(ps, o, cfg, s, ev),
        phase_shape(ps, cfg, s, ev, v),
        fronts_ok(s.queues, s.remaining),
        0 <= i < ps.len(),
    ensures
        runs_within(v.slices, ps[i]),
{
    let nc = cfg.cores;
    let step = ev - s.time;
    let name = ps[i].name@;
    assert(runs_within(s.slices, ps[i]));
    lemma_latest_end_on_cores_le(s.slices, name, s.time);
    let c0 = if is_front(s.queues, i, nc) {
        choose|c: int| 0 <= c < nc && s.queues[c].len() > 0 && #[trigger] s.queues[c][0] == i
    } else {
        -1
    };
    assert forall|c: int| 0 <= c < s.slices.len() implies run_time(#[trigger] v.slices[c], name) == run_time(
        s.slices[c],
        name,
    ) + if c == c0 {
        step
    } else {
        0
    } by {
        if s.queues[c].len() > 0 {
            let x = s.queues[c][0];
            lemma_append_run_time(s.slices[c], ps[x].name@, s.time, ev, name);
            if x == i {
                if c != c0 {
                    assert(s.queues[c0][0] == i);
                    assert(s.queues[c][0] != s.queues[c0][0]);
                }
            } else {
                assert(ps[x].name@ != name);
                if c == c0 {
                    assert(s.queues[c0][0] == i);
                }
            }
        } else {
            if c == c0 {
                assert(s.queues[c0].len() > 0);
            }
        }
    }
    lemma_total_run_time_pointwise(s.slices, v.slices, name, c0, step);
    if c0 >= 0 {
        // `i` ran on core `c0` up to `ev`, later than every earlier slice
        assert(s.queues[c0][0] == i);
        assert(ps[i].arrival <= s.time);
        lemma_latest_end_append_same(s.slices[c0], name, s.time, ev);
        assert forall|c: int| 0 <= c < v.slices.len() && c != c0 implies ends_by(#[trigger] latest_end(v.slices[c], name), ev) by {
            lemma_latest_end_le(s.slices[c], name, s.time);
            if s.queues[c].len() > 0 {
                let x = s.queues[c][0];
                assert(s.queues[c][0] != s.queues[c0][0]);
                assert(ps[x].name@ != name);
                lemma_latest_end_append_other(s.slices[c], ps[x].name@, s.time, ev, name);
            }
        }
        lemma_latest_end_on_cores_top(v.slices, name, c0, ev);
    } else {
        assert forall|c: int| 0 <= c < s.slices.len() implies latest_end(#[trigger] v.slices[c], name)
            == latest_end(s.slices[c], name) by {
            if s.queues[c].len() > 0 {
                let x = s.queues[c][0];
                if x == i {
                    assert(is_front(s.queues, i, nc));
                }
                assert(ps[x].name@ != name);
                lemma_append_run_time(s.slices[c], ps[x].name@, s.time, ev, name);
                lemma_latest_end_append_other(s.slices[c], ps[x].name@, s.time, ev, name);
            }
        }
        lemma_latest_end_on_cores_same(s.slices, v.slices, name);
    }
}

/// A slice of a timeline after a stretch of `m` from `t0` to `e` was added
/// is an old slice at the same place, the new stretch, or an old slice of
/// `m` that ended at `t0`, extended to `e`.
proof fn lemma_append_cases(sl: Seq<SliceView>, m: Seq<char>, t0: int, e: int, k: int)
    requires
        0 <= k < append_slice_spec(sl, m, t0, e).len(),
    ensures
        ({
            let t = append_slice_spec(sl, m, t0, e);
            ||| k < sl.len() && t[k] == sl[k]
            ||| t[k].process == m && t[k].end == e && t[k].start == t0
            ||| k < sl.len() && t[k].process == m && t[k].end == e && sl[k].process == m && sl[k].start
                == t[k].start && sl[k].end == t0
        }),
{
}

/// Running up to `ev` runs no process on two cores at once.
proof fn lemma_phase_one_core(ps: Seq<Process>, o: Seq<int>, cfg: McConfig, s: McState, ev: int, v: McState)
    requires
        run_ready(ps, o, cfg, s, ev),
        phase_shape(ps, cfg, s, ev, v),
        fronts_ok(s.queues, s.remaining),
    ensures
        one_core_at_a_time(v.slices),
{
    let nc = cfg.cores;
    let sl = s.slices;
    let vl = v.slices;
    assert forall|c1: int, k1: int, c2: int, k2: int|
        0 <= c1 < vl.len() && 0 <= c2 < vl.len() && c1 != c2 && 0 <= k1 < vl[c1].len() && 0 <= k2
            < vl[c2].len() && (#[trigger] vl[c1][k1]).process == (#[trigger] vl[c2][k2]).process implies vl[c1][k1].end
        <= vl[c2][k2].start || vl[c2][k2].end <= vl[c1][k1].start by {
        let a = vl[c1][k1];
        let b = vl[c2][k2];
        let old1 = s.queues[c1].len() == 0 || (k1 < sl[c1].len() && a == sl[c1][k1]);
        let old2 = s.queues[c2].len() == 0 || (k2 < sl[c2].len() && b == sl[c2][k2]);
        assert(slices_within(sl[c1], s.time));
        assert(slices_within(sl[c2], s.time));
        assert(chronological(sl[c1]) && chronological(sl[c2]));
        if s.queues[c1].len() > 0 {
            lemma_append_cases(sl[c1], ps[s.queues[c1][0]].name@, s.time, ev, k1);
        }
        if s.queues[c2].len() > 0 {
            lemma_append_cases(sl[c2], ps[s.queues[c2][0]].name@, s.time, ev, k2);
        }
        if old1 && old2 {
            if s.queues[c1].len() == 0 {
                assert(a == sl[c1][k1]);
            }
            if s.queues[c2].len() == 0 {
                assert(b == sl[c2][k2]);
            }
            assert(a == sl[c1][k1] && b == sl[c2][k2]);
        } else if !old1 && !old2 {
            let x1 = s.queues[c1][0];
            let x2 = s.queues[c2][0];
            assert(a.process == ps[x1].name@);
            assert(b.process == ps[x2].name@);
            assert(x1 != x2);
        } else if !old1 {
            // `b` is an old slice, over by `s.time`
            let x1 = s.queues[c1][0];
            if s.queues[c2].len() == 0 {
                assert(b == sl[c2][k2]);
            }
            assert(b == sl[c2][k2]);
            assert(b.start < b.end <= s.time);
            if a.start != s.time {
                let o1 = sl[c1][k1];
                assert(o1.process == a.process && o1.start == a.start && o1.end == s.time);
            }
        } else {
            let x2 = s.queues[c2][0];
            if s.queues[c1].len() == 0 {
                assert(a == sl[c1][k1]);
            }
            assert(a == sl[c1][k1]);
            assert(a.start < a.end <= s.time);
            if b.start != s.time {
                let o2 = sl[c2][k2];
                assert(o2.process == b.process && o2.start == b.start && o2.end == s.time);
            }
        }
    }
}

/// Running every busy core up to `ev` and settling the queues keeps the
/// facts of `mc_inv` and does at least `ev - s.time` of work.
pub proof fn lemma_run_phase(ps: Seq<Process>, o: Seq<int>, cfg: McConfig, s: McState, ev: int)
    requires
        run_ready(ps, o, cfg, s, ev),
    ensures
        mc_inv(ps, o, cfg, run_phase(ps, cfg, s, ev)),
        run_phase(ps, cfg, s, ev).time == ev,
        run_phase(ps, cfg, s, ev).next == s.next,
        sum_of(run_phase(ps, cfg, s, ev).remaining) <= sum_of(s.remaining) - (ev - s.time),
{
    lemma_phase_shape(ps, o, cfg, s, ev);
    let v = run_phase(ps, cfg, s, ev);
    lemma_phase_queues(ps, o, cfg, s, ev, v);
    lemma_phase_timelines(ps, o, cfg, s, ev, v);
    lemma_phase_one_core(ps, o, cfg, s, ev, v);
}

/// When every core is idle, moving the clock forward to `ev`, no later than
/// any arrival limit, keeps the facts of `mc_inv`.
proof fn lemma_idle_round(ps: Seq<Process>, o: Seq<int>, cfg: McConfig, s3: McState, ev: int)
    requires
        mc_inv(ps, o, cfg, s3),
        all_idle(s3.queues),
        s3.time < ev <= MAX_TICKS,
    ensures
        mc_inv(ps, o, cfg, McState { time: ev, ..s3 }),
{
    let nc = cfg.cores;
    let t = McState { time: ev, ..s3 };
    assert(forall|c: int| 0 <= c < nc ==> (#[trigger] s3.queues[c]).len() == 0);
    assert(heads_ok(cfg, t)) by {
        assert forall|c: int| 0 <= c < t.head.len() implies (#[trigger] t.head[c] matches Some(x)
            ==> t.queues[c].len() > 0 && t.queues[c][0] == x && 0 < t.quantum_left[c] <= cfg.quantum
            && cfg.algorithm == MulticoreAlgorithm::Rr) by {
            assert(s3.queues[c].len() == 0);
            assert(s3.head[c] is None);
        }
    }
    assert(timelines_ok(ps, t)) by {
        assert forall|c: int| 0 <= c < t.slices.len() implies chronological(#[trigger] t.slices[c])
            && slices_within(t.slices[c], t.time) && slices_after_arrival(ps, t.slices[c]) by {
            assert(slices_within(s3.slices[c], s3.time));
            assert forall|k: int| 0 <= k < t.slices[c].len() implies 0 <= (#[trigger] t.slices[c][k]).start
                <= t.slices[c][k].end <= t.time by {
                assert(s3.slices[c][k] == t.slices[c][k]);
            }
        }
    }
    assert(sum_of(s3.remaining) <= sum_of(services(ps))) by {
        lemma_sum_le(s3.remaining, services(ps));
    }
    lemma_sum_nonneg(s3.remaining);
    assert(queues_ok(ps, o, t));
    assert(pending_ok(ps, o, t));
}

/// A round keeps the facts of `mc_inv` and brings the run closer to its
/// end.
pub proof fn lemma_mc_round(ps: Seq<Process>, o: Seq<int>, cfg: McConfig, s: McState)
    requires
        mc_inv(ps, o, cfg, s),
        has_work(mc_admit(ps, o, cfg.cores, s).remaining),
    ensures
        mc_inv(ps, o, cfg, mc_round(ps, o, cfg, s)),
        rounds_bound(ps, o, mc_round(ps, o, cfg, s)) < rounds_bound(ps, o, s),
        mc_inv(ps, o, cfg, mc_admit(ps, o, cfg.cores, s)),
        mc_inv(ps, o, cfg, mc_prepared(ps, o, cfg, s)),
        armed(cfg, mc_prepared(ps, o, cfg, s)),
        mc_event(ps, o, cfg, mc_prepared(ps, o, cfg, s), cfg.cores) matches Some(ev) ==> (!all_idle(
            mc_prepared(ps, o, cfg, s).queues,
        ) ==> run_ready(ps, o, cfg, mc_prepared(ps, o, cfg, s), ev)),
{
    let nc = cfg.cores;
    let n = ps.len();
    lemma_mc_admit(ps, o, cfg, s);
    let s1 = mc_admit(ps, o, nc, s);
    assert(rounds_bound(ps, o, s1) <= rounds_bound(ps, o, s));
    let s2 = if cfg.stealing {
        mc_migrate(ps, nc, s1, nc as nat)
    } else {
        s1
    };
    lemma_mc_migrate(ps, o, cfg, s1, nc as nat);
    lemma_mc_select(ps, o, cfg, s2);
    let s3 = mc_select(ps, cfg, s2, nc);
    assert(s3 == mc_prepared(ps, o, cfg, s));
    assert(rounds_bound(ps, o, s3) == rounds_bound(ps, o, s1));
    lemma_mc_event(ps, o, cfg, s3, nc, s3.time);
    let i0 = choose|i: int| 0 <= i < s3.remaining.len() && #[trigger] s3.remaining[i] > 0;
    assert(queued(s3.queues, i0) || exists|m: int| s3.next <= m < n && o[m] == i0);
    if queued(s3.queues, i0) {
        let (c, k) = choose|c: int, k: int|
            0 <= c < s3.queues.len() && 0 <= k < s3.queues[c].len() && #[trigger] s3.queues[c][k] == i0;
        assert(s3.queues[c].len() > 0);
    }
    let ev = mc_event(ps, o, cfg, s3, nc).unwrap();
    let t = mc_round(ps, o, cfg, s);
    lemma_sum_nonneg(s3.remaining);
    if all_idle(s3.queues) {
        assert(forall|c: int| 0 <= c < nc ==> (#[trigger] s3.queues[c]).len() == 0);
        assert(s3.next < n);
        assert(ev == ps[o[s3.next]].arrival);
        assert(t == McState { time: ev, ..s3 });
        lemma_idle_round(ps, o, cfg, s3, ev);
    } else {
        assert(some_busy(s3.queues, nc)) by {
            let c = choose|c: int| 0 <= c < s3.queues.len() && (#[trigger] s3.queues[c]).len() != 0;
        }
        assert forall|c: int| 0 <= c < nc && (#[trigger] s3.queues[c]).len() > 0 implies s3.time + s3.remaining[s3.queues[c][0]]
            > s3.time && (cfg.algorithm == MulticoreAlgorithm::Rr ==> s3.time + s3.quantum_left[c] > s3.time) by {
            assert(s3.remaining[s3.queues[c][0]] > 0);
            if cfg.algorithm == MulticoreAlgorithm::Rr {
                assert(s3.head[c] == Some(s3.queues[c][0]));
            }
        }
        assert(run_ready(ps, o, cfg, s3, ev));
        lemma_run_phase(ps, o, cfg, s3, ev);
    }
}

/// The first state of a run keeps the facts of `mc_inv`.
pub proof fn lemma_mc_start(ps: Seq<Process>, o: Seq<int>, cfg: McConfig)
    requires
        crate::process::valid_processes(ps),
        crate::order::is_arrival_order(ps, o),
        cfg.cores == 2 || cfg.cores == 4,
        cfg.quantum >= 1,
    ensures
        mc_inv(ps, o, cfg, mc_start(ps, cfg.cores)),
{
    let s = mc_start(ps, cfg.cores);
    let n = ps.len();
    assert forall|name: Seq<char>| #[trigger] total_run_time(s.slices, name) == 0 by {
        lemma_total_run_time_empty(s.slices, name);
    }
    assert(pending_ok(ps, o, s)) by {
        assert forall|i: int| 0 <= i < n && #[trigger] s.remaining[i] > 0 implies queued(s.queues, i) || exists|m: int|
            s.next <= m < n && o[m] == i by {
            assert(o.contains(i));
        }
    }
    assert forall|name: Seq<char>| #[trigger] latest_end_on_cores(s.slices, name) is None by {
        lemma_latest_end_on_cores_empty(s.slices, name);
    }
    lemma_sum_nonneg(s.remaining);
    assert(s.remaining =~= services(ps));
}

proof fn lemma_latest_end_on_cores_empty(sl: Seq<Seq<SliceView>>, name: Seq<char>)
    requires
        forall|c: int| 0 <= c < sl.len() ==> (#[trigger] sl[c]).len() == 0,
    ensures
        latest_end_on_cores(sl, name) is None,
    decreases sl.len(),
{
    if sl.len() > 0 {
        assert forall|c: int| 0 <= c < sl.len() - 1 implies (#[trigger] sl.drop_last()[c]).len() == 0 by {
            assert(sl.drop_last()[c] == sl[c]);
        }
        lemma_latest_end_on_cores_empty(sl.drop_last(), name);
        assert(sl.last().len() == 0);
    }
}

proof fn lemma_total_run_time_empty(sl: Seq<Seq<SliceView>>, name: Seq<char>)
    requires
        forall|c: int| 0 <= c < sl.len() ==> (#[trigger] sl[c]).len() == 0,
    ensures
        total_run_time(sl, name) == 0,
    decreases sl.len(),
{
    if sl.len() > 0 {
        assert forall|c: int| 0 <= c < sl.len() - 1 implies (#[trigger] sl.drop_last()[c]).len() == 0 by {
            assert(sl.drop_last()[c] == sl[c]);
        }
        lemma_total_run_time_empty(sl.drop_last(), name);
        assert(sl.last().len() == 0);
    }
}

/// Stealing with enough steps left ends with no idle core or no core that
/// has two or more processes queued.
proof fn lemma_migrate_settles(ps: Seq<Process>, o: Seq<int>, cfg: McConfig, s: McState, fuel: nat)
    requires
        mc_inv(ps, o, cfg, s),
        fuel >= idle_count(s.queues, cfg.cores),
    ensures
        ({
            let t = mc_migrate(ps, cfg.cores, s, fuel);
            first_idle(t.queues, cfg.cores) is None || donor(t.queues, cfg.cores) is None
        }),
    decreases fuel,
{
    let nc = cfg.cores;
    lemma_first_idle(s.queues, nc);
    lemma_donor(s.queues, nc);
    lemma_idle_count_bounds(s.queues, nc);
    if fuel > 0 {
        match (first_idle(s.queues, nc), donor(s.queues, nc)) {
            (Some(r), Some(d)) => {
                lemma_steal(ps, o, cfg, s, d, r);
                lemma_migrate_settles(ps, o, cfg, steal(ps, s, d, r), (fuel - 1) as nat);
            },
            _ => {},
        }
    }
}

/// Law: with migration on, once the idle cores have stolen work in a
/// round, no core stands idle while another core has two or more
/// processes queued.
pub proof fn lemma_no_idle_core_beside_waiting_work(ps: Seq<Process>, o: Seq<int>, cfg: McConfig, s: McState)
    requires
        mc_inv(ps, o, cfg, s),
        cfg.stealing,
    ensures
        ({
            let t = mc_prepared(ps, o, cfg, s);
            forall|c1: int, c2: int|
                0 <= c1 < cfg.cores && 0 <= c2 < cfg.cores && (#[trigger] t.queues[c1]).len() == 0
                    ==> (#[trigger] t.queues[c2]).len() < 2
        }),
{
    let nc = cfg.cores;
    lemma_mc_admit(ps, o, cfg, s);
    let s1 = mc_admit(ps, o, nc, s);
    lemma_idle_count_bounds(s1.queues, nc);
    lemma_migrate_settles(ps, o, cfg, s1, nc as nat);
    lemma_mc_migrate(ps, o, cfg, s1, nc as nat);
    let s2 = mc_migrate(ps, nc, s1, nc as nat);
    lemma_first_idle(s2.queues, nc);
    lemma_donor(s2.queues, nc);
    lemma_mc_select(ps, o, cfg, s2);
    let t = mc_prepared(ps, o, cfg, s);
    assert forall|c1: int, c2: int|
        0 <= c1 < nc && 0 <= c2 < nc && (#[trigger] t.queues[c1]).len() == 0 implies (
        #[trigger] t.queues[c2]).len() < 2 by {
        assert(t.queues[c1].len() == s2.queues[c1].len());
        assert(t.queues[c2].len() == s2.queues[c2].len());
    }
}

/// The process at the best position runs before none of the first `k`.
proof fn lemma_best_position_least(ps: Seq<Process>, rem: Seq<int>, qu: Seq<int>, k: int)
    requires
        1 <= k <= qu.len(),
    ensures
        forall|m: int| 0 <= m < k ==> !runs_before(ps, rem, #[trigger] qu[m], qu[best_position(ps, rem, qu, k)]),
    decreases k,
{
    lemma_chars_less_irreflexive(ps[qu[0]].name@);
    if k > 1 {
        lemma_best_position_least(ps, rem, qu, k - 1);
        lemma_best_position(ps, rem, qu, k - 1);
        let b = best_position(ps, rem, qu, k - 1);
        let x = qu[k - 1];
        lemma_chars_less_irreflexive(ps[x].name@);
        if runs_before(ps, rem, x, qu[b]) {
            assert forall|m: int| 0 <= m < k implies !runs_before(ps, rem, #[trigger] qu[m], x) by {
                if m < k - 1 && runs_before(ps, rem, qu[m], x) {
                    if rem[qu[m]] == rem[x] && rem[x] == rem[qu[b]] {
                        lemma_chars_less_transitive(ps[qu[m]].name@, ps[x].name@, ps[qu[b]].name@);
                    }
                    assert(runs_before(ps, rem, qu[m], qu[b]));
                }
            }
        }
    }
}

/// Law: under SRT, once the cores are readied in a round, every busy core
/// has at its front the process of its queue with the least work left (on
/// a tie, the smallest name): no queued process runs before it.
pub proof fn lemma_srt_front_has_least_work(ps: Seq<Process>, o: Seq<int>, cfg: McConfig, s: McState)
    requires
        mc_inv(ps, o, cfg, s),
        cfg.algorithm == MulticoreAlgorithm::Srt,
    ensures
        ({
            let t = mc_prepared(ps, o, cfg, s);
            forall|c: int, j: int|
                0 <= c < cfg.cores && 0 <= j < t.queues[c].len() ==> !runs_before(
                    ps,
                    t.remaining,
                    #[trigger] t.queues[c][j],
                    t.queues[c][0],
                )
        }),
{
    let nc = cfg.cores;
    lemma_mc_admit(ps, o, cfg, s);
    let s1 = mc_admit(ps, o, nc, s);
    lemma_mc_migrate(ps, o, cfg, s1, nc as nat);
    let s2 = if cfg.stealing {
        mc_migrate(ps, nc, s1, nc as nat)
    } else {
        s1
    };
    lemma_mc_select_shape(ps, cfg, s2, nc);
    let t = mc_prepared(ps, o, cfg, s);
    assert forall|c: int, j: int| 0 <= c < nc && 0 <= j < t.queues[c].len() implies !runs_before(
        ps,
        t.remaining,
        #[trigger] t.queues[c][j],
        t.queues[c][0],
    ) by {
        lemma_select_core(ps, cfg, s2, c);
        let qu = s2.queues[c];
        let b = best_position(ps, s2.remaining, qu, qu.len() as int);
        lemma_best_position(ps, s2.remaining, qu, qu.len() as int);
        lemma_best_position_least(ps, s2.remaining, qu, qu.len() as int);
        assert(t.queues[c] == select_core(ps, cfg, s2, c).queues[c]);
        assert(t.queues[c][0] == qu[moved_index(b, 0)]);
        let mj = select_index(ps, cfg, s2, c, j);
        assert(t.queues[c][j] == qu[mj]);
    }
}

} // verus!
