//! The steps of a multicore run, as a state machine, and the facts that
//! every state of a run keeps.
use vstd::prelude::*;
use crate::names::{chars_less, lemma_chars_less_irreflexive, lemma_chars_less_transitive};
use crate::order::{is_arrival_order, lemma_arrival_order_distinct};
use crate::process::{Process, valid_processes, MAX_TICKS};
use crate::timeline::{
    SliceView, chronological, slices_after_arrival, run_time, slices_within, append_slice_spec,
};
use crate::multicore::{MulticoreAlgorithm, MigrationView};
use crate::work::{sum_of, has_work, services};

verus! {

/// The state of a multicore run: the clock, how many processes (in order of
/// arrival) have been dealt to the cores, the queue, remaining quantum and
/// quantum holder of every core, the work left of every process, the
/// timeline of every core and the migrations so far.
#[verifier::ext_equal]
pub struct McState {
    pub time: int,
    pub next: int,
    pub queues: Seq<Seq<int>>,
    pub quantum_left: Seq<int>,
    pub head: Seq<Option<int>>,
    pub remaining: Seq<int>,
    pub slices: Seq<Seq<SliceView>>,
    pub migrations: Seq<MigrationView>,
}

/// The settings of a run: number of cores, algorithm, quantum in ticks and
/// whether idle cores steal work.
pub struct McConfig {
    pub cores: int,
    pub algorithm: MulticoreAlgorithm,
    pub quantum: int,
    pub stealing: bool,
}

/// Deals the processes that have arrived by the current time to the cores
/// in turn.
pub open spec fn mc_admit(ps: Seq<Process>, o: Seq<int>, nc: int, s: McState) -> McState
    decreases ps.len() - s.next,
{
    if 0 <= s.next < ps.len() && ps[o[s.next]].arrival <= s.time {
        let c = s.next % nc;
        mc_admit(
            ps,
            o,
            nc,
            McState { next: s.next + 1, queues: s.queues.update(c, s.queues[c].push(o[s.next])), ..s },
        )
    } else {
        s
    }
}

/// The first of the first `k` cores whose queue is empty.
pub open spec fn first_idle(qs: Seq<Seq<int>>, k: int) -> Option<int>
    decreases k,
{
    if k <= 0 {
        None
    } else {
        match first_idle(qs, k - 1) {
            Some(c) => Some(c),
            None => if qs[k - 1].len() == 0 {
                Some(k - 1)
            } else {
                None
            },
        }
    }
}

/// Among the first `k` cores with at least two queued processes, the last
/// of those with the longest queue.
pub open spec fn donor(qs: Seq<Seq<int>>, k: int) -> Option<int>
    decreases k,
{
    if k <= 0 {
        None
    } else {
        let d = donor(qs, k - 1);
        if qs[k - 1].len() >= 2 && (d is None || qs[k - 1].len() >= qs[d.unwrap()].len()) {
            Some(k - 1)
        } else {
            d
        }
    }
}

/// Core `r` takes the last queued process of core `d`.
pub open spec fn steal(ps: Seq<Process>, s: McState, d: int, r: int) -> McState {
    let x = s.queues[d].last();
    McState {
        queues: s.queues.update(d, s.queues[d].drop_last()).update(r, s.queues[r].push(x)),
        migrations: s.migrations.push(MigrationView { process: ps[x].name@, from: d, to: r, at: s.time }),
        ..s
    }
}

/// While some core is idle and some core has two or more queued processes,
/// the first idle core takes the last process of the busiest one.
pub open spec fn mc_migrate(ps: Seq<Process>, nc: int, s: McState, fuel: nat) -> McState
    decreases fuel,
{
    if fuel == 0 {
        s
    } else {
        match (first_idle(s.queues, nc), donor(s.queues, nc)) {
            (Some(r), Some(d)) => mc_migrate(ps, nc, steal(ps, s, d, r), (fuel - 1) as nat),
            _ => s,
        }
    }
}

/// Under SRT, `a` runs before `b`: less work left, then the smaller name.
pub open spec fn runs_before(ps: Seq<Process>, rem: Seq<int>, a: int, b: int) -> bool {
    rem[a] < rem[b] || (rem[a] == rem[b] && chars_less(ps[a].name@, ps[b].name@))
}

/// The first position, among the first `k` of the queue `qu`, of the
/// process that runs first under SRT.
pub open spec fn best_position(ps: Seq<Process>, rem: Seq<int>, qu: Seq<int>, k: int) -> int
    decreases k,
{
    if k <= 1 {
        0
    } else {
        let b = best_position(ps, rem, qu, k - 1);
        if runs_before(ps, rem, qu[k - 1], qu[b]) {
            k - 1
        } else {
            b
        }
    }
}

/// Readies core `c`: under SRT the process with the least work left moves
/// to the front of the queue; under RR a new front process gets a fresh
/// quantum.
pub open spec fn select_core(ps: Seq<Process>, cfg: McConfig, s: McState, c: int) -> McState {
    let qu = s.queues[c];
    if qu.len() == 0 {
        s
    } else {
        match cfg.algorithm {
            MulticoreAlgorithm::Fcfs => s,
            MulticoreAlgorithm::Srt => {
                let b = best_position(ps, s.remaining, qu, qu.len() as int);
                if b == 0 {
                    s
                } else {
                    McState { queues: s.queues.update(c, seq![qu[b]] + qu.remove(b)), ..s }
                }
            },
            MulticoreAlgorithm::Rr => {
                if s.head[c] == Some(qu[0]) {
                    s
                } else {
                    McState {
                        quantum_left: s.quantum_left.update(c, cfg.quantum),
                        head: s.head.update(c, Some(qu[0])),
                        ..s
                    }
                }
            },
        }
    }
}

/// Readies the first `k` cores.
pub open spec fn mc_select(ps: Seq<Process>, cfg: McConfig, s: McState, k: int) -> McState
    decreases k,
{
    if k <= 0 {
        s
    } else {
        select_core(ps, cfg, mc_select(ps, cfg, s, k - 1), k - 1)
    }
}

/// The smaller of two optional times.
pub open spec fn min_opt(a: Option<int>, b: Option<int>) -> Option<int> {
    match (a, b) {
        (Some(x), Some(y)) => Some(if x < y {
            x
        } else {
            y
        }),
        (Some(x), None) => Some(x),
        (None, y) => y,
    }
}

/// When core `c` next needs attention: its front process finishes, or
/// under RR its quantum runs out.
pub open spec fn core_event(cfg: McConfig, s: McState, c: int) -> Option<int> {
    if s.queues[c].len() == 0 {
        None
    } else {
        let done = s.time + s.remaining[s.queues[c][0]];
        if cfg.algorithm == MulticoreAlgorithm::Rr {
            min_opt(Some(done), Some(s.time + s.quantum_left[c]))
        } else {
            Some(done)
        }
    }
}

/// The next event among the next arrival and the first `k` cores.
pub open spec fn mc_event(ps: Seq<Process>, o: Seq<int>, cfg: McConfig, s: McState, k: int) -> Option<int>
    decreases k,
{
    if k <= 0 {
        if 0 <= s.next < ps.len() {
            Some(ps[o[s.next]].arrival as int)
        } else {
            None
        }
    } else {
        min_opt(mc_event(ps, o, cfg, s, k - 1), core_event(cfg, s, k - 1))
    }
}

/// Core `c` runs its front process from the current time to `ev`.
pub open spec fn apply_core(ps: Seq<Process>, cfg: McConfig, s: McState, ev: int, c: int) -> McState {
    if s.queues[c].len() == 0 {
        s
    } else {
        let x = s.queues[c][0];
        let step = ev - s.time;
        McState {
            slices: s.slices.update(c, append_slice_spec(s.slices[c], ps[x].name@, s.time, ev)),
            remaining: s.remaining.update(x, s.remaining[x] - step),
            quantum_left: if cfg.algorithm == MulticoreAlgorithm::Rr {
                s.quantum_left.update(c, s.quantum_left[c] - step)
            } else {
                s.quantum_left
            },
            ..s
        }
    }
}

/// Runs the first `k` cores up to `ev`.
pub open spec fn mc_apply(ps: Seq<Process>, cfg: McConfig, s: McState, ev: int, k: int) -> McState
    decreases k,
{
    if k <= 0 {
        s
    } else {
        apply_core(ps, cfg, mc_apply(ps, cfg, s, ev, k - 1), ev, k - 1)
    }
}

/// After running, a finished front process leaves the queue of core `c`,
/// and under RR one whose quantum ran out goes to the back.
pub open spec fn settle_core(cfg: McConfig, s: McState, c: int) -> McState {
    if s.queues[c].len() == 0 {
        s
    } else {
        let x = s.queues[c][0];
        if s.remaining[x] == 0 {
            McState {
                queues: s.queues.update(c, s.queues[c].drop_first()),
                head: s.head.update(c, None),
                ..s
            }
        } else if cfg.algorithm == MulticoreAlgorithm::Rr && s.quantum_left[c] == 0 {
            McState {
                queues: s.queues.update(c, s.queues[c].drop_first().push(x)),
                head: s.head.update(c, None),
                ..s
            }
        } else {
            s
        }
    }
}

/// Settles the queues of the first `k` cores.
pub open spec fn mc_settle(cfg: McConfig, s: McState, k: int) -> McState
    decreases k,
{
    if k <= 0 {
        s
    } else {
        settle_core(cfg, mc_settle(cfg, s, k - 1), k - 1)
    }
}

/// Every queue is empty.
pub open spec fn all_idle(qs: Seq<Seq<int>>) -> bool {
    forall|c: int| 0 <= c < qs.len() ==> (#[trigger] qs[c]).len() == 0
}

/// The state after arrivals are dealt, idle cores steal and the cores are
/// readied.
pub open spec fn mc_prepared(ps: Seq<Process>, o: Seq<int>, cfg: McConfig, s: McState) -> McState {
    let s1 = mc_admit(ps, o, cfg.cores, s);
    let s2 = if cfg.stealing {
        mc_migrate(ps, cfg.cores, s1, cfg.cores as nat)
    } else {
        s1
    };
    mc_select(ps, cfg, s2, cfg.cores)
}

/// One round: arrivals are dealt, idle cores steal, the cores are readied;
/// then, if all cores are idle, the clock moves to the next arrival, and
/// otherwise every busy core runs until the next event and its queue is
/// settled.
pub open spec fn mc_round(ps: Seq<Process>, o: Seq<int>, cfg: McConfig, s: McState) -> McState {
    let s3 = mc_prepared(ps, o, cfg, s);
    match mc_event(ps, o, cfg, s3, cfg.cores) {
        None => s3,
        Some(ev) => if all_idle(s3.queues) {
            McState { time: ev, ..s3 }
        } else {
            run_phase(ps, cfg, s3, ev)
        },
    }
}

/// The state after every busy core ran its front process up to `ev`.
pub open spec fn applied(ps: Seq<Process>, cfg: McConfig, s: McState, ev: int) -> McState {
    McState { time: ev, ..mc_apply(ps, cfg, s, ev, cfg.cores) }
}

/// Every busy core runs its front process up to `ev`, then the queues are
/// settled.
pub open spec fn run_phase(ps: Seq<Process>, cfg: McConfig, s: McState, ev: int) -> McState {
    mc_settle(cfg, applied(ps, cfg, s, ev), cfg.cores)
}

/// Runs at most `fuel` rounds from `s`, stopping when, after dealing the
/// arrivals, no work is left.
pub open spec fn mc_run(ps: Seq<Process>, o: Seq<int>, cfg: McConfig, s: McState, fuel: nat) -> McState
    decreases fuel,
{
    let s1 = mc_admit(ps, o, cfg.cores, s);
    if fuel == 0 || !has_work(s1.remaining) {
        s1
    } else {
        mc_run(ps, o, cfg, mc_round(ps, o, cfg, s), (fuel - 1) as nat)
    }
}

/// The first state of a run on `nc` cores: empty queues and timelines,
/// every process with all its work left.
pub open spec fn mc_start(ps: Seq<Process>, nc: int) -> McState {
    McState {
        time: 0,
        next: 0,
        queues: Seq::new(nc as nat, |c: int| Seq::<int>::empty()),
        quantum_left: Seq::new(nc as nat, |c: int| 0),
        head: Seq::new(nc as nat, |c: int| None),
        remaining: services(ps),
        slices: Seq::new(nc as nat, |c: int| Seq::<SliceView>::empty()),
        migrations: seq![],
    }
}

/// How much longer a run from `s` can take, in rounds.
pub open spec fn rounds_bound(ps: Seq<Process>, o: Seq<int>, s: McState) -> int {
    sum_of(s.remaining) + 2 * (ps.len() - s.next) + if 0 <= s.next < ps.len() && ps[o[s.next]].arrival
        > s.time {
        1int
    } else {
        0
    }
}

/// The total time for which `name` runs over all the timelines `sl`.
pub open spec fn total_run_time(sl: Seq<Seq<SliceView>>, name: Seq<char>) -> int
    decreases sl.len(),
{
    if sl.len() == 0 {
        0
    } else {
        total_run_time(sl.drop_last(), name) + run_time(sl.last(), name)
    }
}

/// The larger of two optional times.
pub open spec fn max_opt(a: Option<int>, b: Option<int>) -> Option<int> {
    match (a, b) {
        (Some(x), Some(y)) => Some(if x >= y {
            x
        } else {
            y
        }),
        (Some(x), None) => Some(x),
        (None, y) => y,
    }
}

/// The latest end of a slice of `name` in `s`.
pub open spec fn latest_end(s: Seq<SliceView>, name: Seq<char>) -> Option<int>
    decreases s.len(),
{
    if s.len() == 0 {
        None
    } else {
        max_opt(
            latest_end(s.drop_last(), name),
            if s.last().process == name {
                Some(s.last().end)
            } else {
                None
            },
        )
    }
}

/// The latest end of a slice of `name` on any of the timelines `sl`.
pub open spec fn latest_end_on_cores(sl: Seq<Seq<SliceView>>, name: Seq<char>) -> Option<int>
    decreases sl.len(),
{
    if sl.len() == 0 {
        None
    } else {
        max_opt(latest_end_on_cores(sl.drop_last(), name), latest_end(sl.last(), name))
    }
}

/// Process `i` is in some queue.
pub open spec fn queued(qs: Seq<Seq<int>>, i: int) -> bool {
    exists|c: int, k: int| 0 <= c < qs.len() && 0 <= k < qs[c].len() && #[trigger] qs[c][k] == i
}

/// Queued processes are in range, have arrived by the current time, have
/// been dealt, have work left, and are queued once.
pub open spec fn queues_ok(ps: Seq<Process>, o: Seq<int>, s: McState) -> bool {
    &&& forall|c: int, k: int|
        0 <= c < s.queues.len() && 0 <= k < s.queues[c].len() ==> {
            let x = #[trigger] s.queues[c][k];
            &&& 0 <= x < ps.len()
            &&& s.remaining[x] > 0
            &&& ps[x].arrival <= s.time
            &&& exists|m: int| 0 <= m < s.next && o[m] == x
        }
    &&& forall|c1: int, k1: int, c2: int, k2: int|
        0 <= c1 < s.queues.len() && 0 <= k1 < s.queues[c1].len() && 0 <= c2 < s.queues.len() && 0
            <= k2 < s.queues[c2].len() && (c1 != c2 || k1 != k2) ==> #[trigger] s.queues[c1][k1]
            != #[trigger] s.queues[c2][k2]
}

/// Processes not yet dealt are untouched, and every process with work left
/// is queued or not yet dealt.
pub open spec fn pending_ok(ps: Seq<Process>, o: Seq<int>, s: McState) -> bool {
    &&& forall|m: int| s.next <= m < ps.len() ==> s.remaining[#[trigger] o[m]] == ps[o[m]].service
    &&& forall|i: int|
        0 <= i < ps.len() && #[trigger] s.remaining[i] > 0 ==> queued(s.queues, i) || exists|m: int|
            s.next <= m < ps.len() && o[m] == i
}

/// A core's quantum holder is its front process, with some quantum left;
/// only Round Robin has quantum holders.
pub open spec fn heads_ok(cfg: McConfig, s: McState) -> bool {
    forall|c: int|
        0 <= c < s.head.len() ==> (#[trigger] s.head[c] matches Some(x) ==> s.queues[c].len() > 0
            && s.queues[c][0] == x && 0 < s.quantum_left[c] <= cfg.quantum && cfg.algorithm
            == MulticoreAlgorithm::Rr)
}

/// Every core's timeline runs one process at a time, before the current
/// time, never a process before it arrives.
pub open spec fn timelines_ok(ps: Seq<Process>, s: McState) -> bool {
    forall|c: int|
        0 <= c < s.slices.len() ==> chronological(#[trigger] s.slices[c]) && slices_within(
            s.slices[c],
            s.time,
        ) && slices_after_arrival(ps, s.slices[c])
}

/// Over all timelines `sl`, `p` has run no longer than from its arrival to
/// the latest end of its slices.
pub open spec fn runs_within(sl: Seq<Seq<SliceView>>, p: Process) -> bool {
    match latest_end_on_cores(sl, p.name@) {
        Some(e) => total_run_time(sl, p.name@) <= e - p.arrival,
        None => total_run_time(sl, p.name@) == 0,
    }
}

/// No process runs on two cores at once: slices of one process on
/// different cores do not overlap.
pub open spec fn one_core_at_a_time(sl: Seq<Seq<SliceView>>) -> bool {
    forall|c1: int, k1: int, c2: int, k2: int|
        0 <= c1 < sl.len() && 0 <= c2 < sl.len() && c1 != c2 && 0 <= k1 < sl[c1].len() && 0 <= k2
            < sl[c2].len() && (#[trigger] sl[c1][k1]).process == (#[trigger] sl[c2][k2]).process
            ==> sl[c1][k1].end <= sl[c2][k2].start || sl[c2][k2].end <= sl[c1][k1].start
}

/// Every migration moves a process of `ps` from one of `nc` cores to
/// another.
pub open spec fn migrations_ok(ps: Seq<Process>, nc: int, ms: Seq<MigrationView>) -> bool {
    forall|k: int|
        0 <= k < ms.len() ==> {
            let m = #[trigger] ms[k];
            &&& 0 <= m.from < nc
            &&& 0 <= m.to < nc
            &&& m.from != m.to
            &&& exists|i: int| 0 <= i < ps.len() && (#[trigger] ps[i]).name@ == m.process
        }
}

/// The facts that hold of every state of a multicore run.
pub open spec fn mc_inv(ps: Seq<Process>, o: Seq<int>, cfg: McConfig, s: McState) -> bool {
    let n = ps.len();
    &&& valid_processes(ps)
    &&& is_arrival_order(ps, o)
    &&& cfg.cores == 2 || cfg.cores == 4
    &&& cfg.quantum >= 1
    &&& 0 <= s.next <= n
    &&& s.queues.len() == cfg.cores
    &&& s.quantum_left.len() == cfg.cores
    &&& s.head.len() == cfg.cores
    &&& s.slices.len() == cfg.cores
    &&& s.remaining.len() == n
    &&& forall|i: int| 0 <= i < n ==> 0 <= #[trigger] s.remaining[i] <= ps[i].service
    &&& queues_ok(ps, o, s)
    &&& pending_ok(ps, o, s)
    &&& heads_ok(cfg, s)
    &&& timelines_ok(ps, s)
    &&& forall|i: int|
        0 <= i < n ==> total_run_time(s.slices, (#[trigger] ps[i]).name@) + s.remaining[i]
            == ps[i].service
    &&& forall|i: int| 0 <= i < n ==> runs_within(s.slices, #[trigger] ps[i])
    &&& migrations_ok(ps, cfg.cores, s.migrations)
    &&& one_core_at_a_time(s.slices)
    &&& 0 <= s.time
    &&& s.time + sum_of(s.remaining) <= MAX_TICKS + sum_of(services(ps))
}

/// Dealing in turn picks one of the cores.
pub proof fn lemma_mod_core(next: int, nc: int)
    requires
        next >= 0,
        nc == 2 || nc == 4,
    ensures
        0 <= next % nc < nc,
{
}

/// Dealing arrivals keeps the facts of `mc_inv`; afterwards the next
/// process has not arrived yet.
pub proof fn lemma_mc_admit(ps: Seq<Process>, o: Seq<int>, cfg: McConfig, s: McState)
    requires
        mc_inv(ps, o, cfg, s),
    ensures
        mc_inv(ps, o, cfg, mc_admit(ps, o, cfg.cores, s)),
        ({
            let t = mc_admit(ps, o, cfg.cores, s);
            &&& t.time == s.time
            &&& t.remaining == s.remaining
            &&& t.slices == s.slices
            &&& t.quantum_left == s.quantum_left
            &&& t.head == s.head
            &&& t.migrations == s.migrations
            &&& s.next <= t.next
            &&& t.next == ps.len() || ps[o[t.next]].arrival > t.time
        }),
    decreases ps.len() - s.next,
{
    let n = ps.len();
    if 0 <= s.next < n && ps[o[s.next]].arrival <= s.time {
        let nc = cfg.cores;
        let c = s.next % nc;
        lemma_mod_core(s.next, nc);
        let x = o[s.next];
        let u = McState { next: s.next + 1, queues: s.queues.update(c, s.queues[c].push(x)), ..s };
        assert(0 <= x < n);
        assert(s.remaining[x] == ps[x].service);
        // `x` was not queued before
        assert forall|c2: int, k2: int| 0 <= c2 < s.queues.len() && 0 <= k2 < s.queues[c2].len() implies #[trigger] s.queues[c2][k2] != x by {
            let m = choose|m: int| 0 <= m < s.next && o[m] == s.queues[c2][k2];
            lemma_arrival_order_distinct(ps, o, m, s.next);
        }
        assert(queues_ok(ps, o, u)) by {
            assert forall|c1: int, k1: int| 0 <= c1 < u.queues.len() && 0 <= k1 < u.queues[c1].len() implies {
                let y = #[trigger] u.queues[c1][k1];
                &&& 0 <= y < ps.len()
                &&& u.remaining[y] > 0
                &&& ps[y].arrival <= u.time
                &&& exists|m: int| 0 <= m < u.next && o[m] == y
            } by {
                if c1 == c && k1 == s.queues[c].len() {
                    assert(u.queues[c1][k1] == x);
                } else {
                    assert(u.queues[c1][k1] == s.queues[c1][k1]);
                }
            }
            assert forall|c1: int, k1: int, c2: int, k2: int|
                0 <= c1 < u.queues.len() && 0 <= k1 < u.queues[c1].len() && 0 <= c2 < u.queues.len() && 0
                    <= k2 < u.queues[c2].len() && (c1 != c2 || k1 != k2) implies #[trigger] u.queues[c1][k1]
                != #[trigger] u.queues[c2][k2] by {
                let new1 = c1 == c && k1 == s.queues[c].len();
                let new2 = c2 == c && k2 == s.queues[c].len();
                if !new1 {
                    assert(u.queues[c1][k1] == s.queues[c1][k1]);
                }
                if !new2 {
                    assert(u.queues[c2][k2] == s.queues[c2][k2]);
                }
            }
        }
        assert(pending_ok(ps, o, u)) by {
            assert forall|i: int| 0 <= i < n && #[trigger] u.remaining[i] > 0 implies queued(u.queues, i)
                || exists|m: int| u.next <= m < n && o[m] == i by {
                if i == x {
                    assert(u.queues[c][s.queues[c].len() as int] == x);
                } else if queued(s.queues, i) {
                    let (c2, k2) = choose|c2: int, k2: int|
                        0 <= c2 < s.queues.len() && 0 <= k2 < s.queues[c2].len() && #[trigger] s.queues[c2][k2]
                            == i;
                    assert(u.queues[c2][k2] == i);
                } else {
                    let m = choose|m: int| s.next <= m < n && o[m] == i;
                    assert(m != s.next);
                }
            }
        }
        assert(heads_ok(cfg, u)) by {
            assert forall|c1: int| 0 <= c1 < u.head.len() implies (#[trigger] u.head[c1] matches Some(y)
                ==> u.queues[c1].len() > 0 && u.queues[c1][0] == y && 0 < u.quantum_left[c1]
                <= cfg.quantum && cfg.algorithm == MulticoreAlgorithm::Rr) by {
                if c1 == c {
                    if s.head[c1] is Some {
                        assert(u.queues[c1][0] == s.queues[c1][0]);
                    }
                }
            }
        }
        assert(mc_inv(ps, o, cfg, u));
        lemma_mc_admit(ps, o, cfg, u);
    }
}

/// The first idle core is idle, and when there is none every core is busy.
pub proof fn lemma_first_idle(qs: Seq<Seq<int>>, k: int)
    requires
        0 <= k <= qs.len(),
    ensures
        first_idle(qs, k) matches Some(r) ==> 0 <= r < k && qs[r].len() == 0,
        first_idle(qs, k) is None ==> forall|c: int| 0 <= c < k ==> (#[trigger] qs[c]).len() > 0,
    decreases k,
{
    if k > 0 {
        lemma_first_idle(qs, k - 1);
    }
}

/// The donor has two or more queued processes, and when there is none
/// no core has.
pub proof fn lemma_donor(qs: Seq<Seq<int>>, k: int)
    requires
        0 <= k <= qs.len(),
    ensures
        donor(qs, k) matches Some(d) ==> 0 <= d < k && qs[d].len() >= 2,
        donor(qs, k) is None ==> forall|c: int| 0 <= c < k ==> (#[trigger] qs[c]).len() < 2,
    decreases k,
{
    if k > 0 {
        lemma_donor(qs, k - 1);
    }
}

/// The number of idle cores among the first `k`.
pub open spec fn idle_count(qs: Seq<Seq<int>>, k: int) -> int
    decreases k,
{
    if k <= 0 {
        0
    } else {
        idle_count(qs, k - 1) + if qs[k - 1].len() == 0 {
            1int
        } else {
            0
        }
    }
}

proof fn lemma_idle_count_steal(qs: Seq<Seq<int>>, t: Seq<Seq<int>>, r: int, k: int)
    requires
        qs.len() == t.len(),
        0 <= k <= qs.len(),
        0 <= r < qs.len(),
        qs[r].len() == 0,
        t[r].len() > 0,
        forall|c: int| 0 <= c < qs.len() && c != r ==> ((#[trigger] qs[c]).len() == 0 <==> t[c].len() == 0),
    ensures
        idle_count(t, k) == idle_count(qs, k) - if r < k {
            1int
        } else {
            0
        },
        0 <= idle_count(t, k),
    decreases k,
{
    if k > 0 {
        lemma_idle_count_steal(qs, t, r, k - 1);
    }
}

/// A steal keeps the facts of `mc_inv`.
pub proof fn lemma_steal(ps: Seq<Process>, o: Seq<int>, cfg: McConfig, s: McState, d: int, r: int)
    requires
        mc_inv(ps, o, cfg, s),
        0 <= d < cfg.cores,
        0 <= r < cfg.cores,
        s.queues[r].len() == 0,
        s.queues[d].len() >= 2,
    ensures
        mc_inv(ps, o, cfg, steal(ps, s, d, r)),
        ({
            let t = steal(ps, s, d, r);
            &&& t.time == s.time
            &&& t.next == s.next
            &&& t.remaining == s.remaining
            &&& t.slices == s.slices
            &&& t.quantum_left == s.quantum_left
            &&& t.head == s.head
            &&& idle_count(t.queues, cfg.cores) == idle_count(s.queues, cfg.cores) - 1
        }),
{
    let t = steal(ps, s, d, r);
    let ld = s.queues[d].len() - 1;
    let x = s.queues[d][ld];
    assert(s.queues[d].last() == x);
    assert(r != d);
    assert(t.queues[r] =~= seq![x]);
    assert(t.queues[d] =~= s.queues[d].drop_last());
    // where an entry of `t` was in `s`
    assert forall|c: int, k: int| 0 <= c < t.queues.len() && 0 <= k < t.queues[c].len() implies
        (c == r && k == 0 && #[trigger] t.queues[c][k] == s.queues[d][ld]) || (c != r && t.queues[c][k]
        == s.queues[c][k] && (c == d ==> k < ld)) by {
        if c == r {
        } else if c == d {
            assert(t.queues[c][k] == s.queues[d][k]);
        } else {
            assert(t.queues[c] == s.queues[c]);
        }
    }
    assert(queues_ok(ps, o, t)) by {
        assert forall|c1: int, k1: int, c2: int, k2: int|
            0 <= c1 < t.queues.len() && 0 <= k1 < t.queues[c1].len() && 0 <= c2 < t.queues.len() && 0
                <= k2 < t.queues[c2].len() && (c1 != c2 || k1 != k2) implies #[trigger] t.queues[c1][k1]
            != #[trigger] t.queues[c2][k2] by {
            if c1 == r && c2 == r {
            } else if c1 == r {
                assert(s.queues[c2][k2] != s.queues[d][ld]);
            } else if c2 == r {
                assert(s.queues[c1][k1] != s.queues[d][ld]);
            } else {
                assert(s.queues[c1][k1] != s.queues[c2][k2]);
            }
        }
        assert forall|c1: int, k1: int| 0 <= c1 < t.queues.len() && 0 <= k1 < t.queues[c1].len() implies {
            let y = #[trigger] t.queues[c1][k1];
            &&& 0 <= y < ps.len()
            &&& t.remaining[y] > 0
            &&& ps[y].arrival <= t.time
            &&& exists|m: int| 0 <= m < t.next && o[m] == y
        } by {
            if c1 == r {
                assert(t.queues[c1][k1] == s.queues[d][ld]);
            } else {
                assert(t.queues[c1][k1] == s.queues[c1][k1]);
            }
        }
    }
    assert(pending_ok(ps, o, t)) by {
        assert forall|i: int| 0 <= i < ps.len() && #[trigger] t.remaining[i] > 0 implies queued(t.queues, i)
            || exists|m: int| t.next <= m < ps.len() && o[m] == i by {
            if queued(s.queues, i) {
                let (c2, k2) = choose|c2: int, k2: int|
                    0 <= c2 < s.queues.len() && 0 <= k2 < s.queues[c2].len() && #[trigger] s.queues[c2][k2] == i;
                if c2 == d && k2 == ld {
                    assert(t.queues[r][0] == i);
                } else {
                    assert(c2 != r);
                    assert(t.queues[c2][k2] == i);
                }
            }
        }
    }
    assert(heads_ok(cfg, t)) by {
        assert forall|c1: int| 0 <= c1 < t.head.len() implies (#[trigger] t.head[c1] matches Some(y)
            ==> t.queues[c1].len() > 0 && t.queues[c1][0] == y && 0 < t.quantum_left[c1]
            <= cfg.quantum && cfg.algorithm == MulticoreAlgorithm::Rr) by {
            if c1 == d && s.head[c1] is Some {
                assert(t.queues[c1][0] == s.queues[c1][0]);
            }
        }
    }
    lemma_idle_count_steal(s.queues, t.queues, r, cfg.cores);
}

/// Stealing keeps the facts of `mc_inv`.
pub proof fn lemma_mc_migrate(ps: Seq<Process>, o: Seq<int>, cfg: McConfig, s: McState, fuel: nat)
    requires
        mc_inv(ps, o, cfg, s),
    ensures
        mc_inv(ps, o, cfg, mc_migrate(ps, cfg.cores, s, fuel)),
        ({
            let t = mc_migrate(ps, cfg.cores, s, fuel);
            &&& t.time == s.time
            &&& t.next == s.next
            &&& t.remaining == s.remaining
            &&& t.slices == s.slices
            &&& t.quantum_left == s.quantum_left
            &&& t.head == s.head
        }),
    decreases fuel,
{
    if fuel > 0 {
        lemma_first_idle(s.queues, cfg.cores);
        lemma_donor(s.queues, cfg.cores);
        match (first_idle(s.queues, cfg.cores), donor(s.queues, cfg.cores)) {
            (Some(r), Some(d)) => {
                lemma_steal(ps, o, cfg, s, d, r);
                lemma_mc_migrate(ps, o, cfg, steal(ps, s, d, r), (fuel - 1) as nat);
            },
            _ => {},
        }
    }
}

/// The number of idle cores is at most the number of cores, and at least
/// one when some core is idle.
pub proof fn lemma_idle_count_bounds(qs: Seq<Seq<int>>, k: int)
    requires
        0 <= k <= qs.len(),
    ensures
        0 <= idle_count(qs, k) <= k,
        first_idle(qs, k) is Some ==> idle_count(qs, k) >= 1,
    decreases k,
{
    if k > 0 {
        lemma_idle_count_bounds(qs, k - 1);
    }
}

/// Stealing ends within as many steals as there are idle cores.
pub proof fn lemma_mc_migrate_fuel(ps: Seq<Process>, o: Seq<int>, cfg: McConfig, s: McState, f1: nat, f2: nat)
    requires
        mc_inv(ps, o, cfg, s),
        f1 >= idle_count(s.queues, cfg.cores),
        f2 >= idle_count(s.queues, cfg.cores),
    ensures
        mc_migrate(ps, cfg.cores, s, f1) == mc_migrate(ps, cfg.cores, s, f2),
    decreases f1,
{
    lemma_first_idle(s.queues, cfg.cores);
    lemma_donor(s.queues, cfg.cores);
    lemma_idle_count_bounds(s.queues, cfg.cores);
    match (first_idle(s.queues, cfg.cores), donor(s.queues, cfg.cores)) {
        (Some(r), Some(d)) => {
            lemma_steal(ps, o, cfg, s, d, r);
            lemma_mc_migrate_fuel(ps, o, cfg, steal(ps, s, d, r), (f1 - 1) as nat, (f2 - 1) as nat);
        },
        _ => {},
    }
}

proof fn lemma_best_position(ps: Seq<Process>, rem: Seq<int>, qu: Seq<int>, k: int)
    requires
        1 <= k <= qu.len(),
    ensures
        0 <= best_position(ps, rem, qu, k) < k,
        forall|m: int|
            0 <= m < k ==> !runs_before(ps, rem, #[trigger] qu[m], qu[best_position(ps, rem, qu, k)]),
    decreases k,
{
    let b = best_position(ps, rem, qu, k);
    if k == 1 {
        lemma_chars_less_irreflexive(ps[qu[0]].name@);
    } else {
        lemma_best_position(ps, rem, qu, k - 1);
        let b0 = best_position(ps, rem, qu, k - 1);
        if runs_before(ps, rem, qu[k - 1], qu[b0]) {
            assert forall|m: int| 0 <= m < k implies !runs_before(ps, rem, #[trigger] qu[m], qu[b]) by {
                if m == k - 1 {
                    lemma_chars_less_irreflexive(ps[qu[m]].name@);
                } else {
                    assert(!runs_before(ps, rem, qu[m], qu[b0]));
                    if runs_before(ps, rem, qu[m], qu[k - 1]) {
                        lemma_chars_less_transitive(ps[qu[m]].name@, ps[qu[k - 1]].name@, ps[qu[b0]].name@);
                    }
                }
            }
        }
    }
}

/// Readying one core touches only that core's queue, quantum and quantum
/// holder.
proof fn lemma_select_core_frame(ps: Seq<Process>, cfg: McConfig, s: McState, c: int)
    requires
        0 <= c < s.queues.len(),
        s.quantum_left.len() == s.queues.len(),
        s.head.len() == s.queues.len(),
    ensures
        ({
            let t = select_core(ps, cfg, s, c);
            &&& t.queues.len() == s.queues.len()
            &&& t.quantum_left.len() == s.queues.len()
            &&& t.head.len() == s.queues.len()
            &&& t.remaining == s.remaining
            &&& forall|d: int|
                0 <= d < s.queues.len() && d != c ==> #[trigger] t.queues[d] == s.queues[d]
                    && t.quantum_left[d] == s.quantum_left[d] && t.head[d] == s.head[d]
        }),
{
}

/// Readying the first `k` cores leaves every core as readying it alone
/// would, and the work left unchanged.
proof fn lemma_mc_select_cores(ps: Seq<Process>, cfg: McConfig, s: McState, k: int)
    requires
        0 <= k <= s.queues.len(),
        s.quantum_left.len() == s.queues.len(),
        s.head.len() == s.queues.len(),
    ensures
        ({
            let t = mc_select(ps, cfg, s, k);
            &&& t.queues.len() == s.queues.len()
            &&& t.quantum_left.len() == s.queues.len()
            &&& t.head.len() == s.queues.len()
            &&& t.remaining == s.remaining
            &&& forall|d: int|
                0 <= d < k ==> #[trigger] t.queues[d] == select_core(ps, cfg, s, d).queues[d]
                    && t.quantum_left[d] == select_core(ps, cfg, s, d).quantum_left[d] && t.head[d]
                    == select_core(ps, cfg, s, d).head[d]
            &&& forall|d: int|
                k <= d < s.queues.len() ==> #[trigger] t.queues[d] == s.queues[d] && t.quantum_left[d]
                    == s.quantum_left[d] && t.head[d] == s.head[d]
        }),
    decreases k,
{
    if k > 0 {
        lemma_mc_select_cores(ps, cfg, s, k - 1);
        let u = mc_select(ps, cfg, s, k - 1);
        lemma_select_core_frame(ps, cfg, u, k - 1);
        let c = k - 1;
        assert(u.queues[c] == s.queues[c] && u.head[c] == s.head[c] && u.quantum_left[c]
            == s.quantum_left[c]);
        lemma_select_core_frame(ps, cfg, s, c);
        let t = mc_select(ps, cfg, s, k);
        assert(t.queues[c] == select_core(ps, cfg, s, c).queues[c]);
        assert(t.quantum_left[c] == select_core(ps, cfg, s, c).quantum_left[c]);
        assert(t.head[c] == select_core(ps, cfg, s, c).head[c]);
    }
}

/// Under multicore SRT, once the cores are readied the front process of
/// every busy core has the least work left of all the processes that were
/// in its queue, and none of them with just as much work left has a smaller
/// name; the queue keeps its processes.
pub proof fn lemma_srt_front_has_least_work(ps: Seq<Process>, cfg: McConfig, s: McState)
    requires
        cfg.algorithm == MulticoreAlgorithm::Srt,
        0 <= cfg.cores <= s.queues.len(),
        s.quantum_left.len() == s.queues.len(),
        s.head.len() == s.queues.len(),
    ensures
        ({
            let t = mc_select(ps, cfg, s, cfg.cores);
            &&& t.remaining == s.remaining
            &&& forall|c: int, m: int|
                0 <= c < cfg.cores && 0 <= m < s.queues[c].len() ==> {
                    let f = t.queues[c][0];
                    let x = #[trigger] s.queues[c][m];
                    &&& t.queues[c].len() == s.queues[c].len()
                    &&& s.queues[c].contains(f)
                    &&& t.queues[c].contains(x)
                    &&& s.remaining[f] <= s.remaining[x]
                    &&& s.remaining[f] == s.remaining[x] ==> !chars_less(ps[x].name@, ps[f].name@)
                }
        }),
{
    lemma_mc_select_cores(ps, cfg, s, cfg.cores);
    let t = mc_select(ps, cfg, s, cfg.cores);
    assert forall|c: int, m: int| 0 <= c < cfg.cores && 0 <= m < s.queues[c].len() implies {
        let f = t.queues[c][0];
        let x = #[trigger] s.queues[c][m];
        &&& t.queues[c].len() == s.queues[c].len()
        &&& s.queues[c].contains(f)
        &&& t.queues[c].contains(x)
        &&& s.remaining[f] <= s.remaining[x]
        &&& s.remaining[f] == s.remaining[x] ==> !chars_less(ps[x].name@, ps[f].name@)
    } by {
        let qu = s.queues[c];
        let rem = s.remaining;
        lemma_best_position(ps, rem, qu, qu.len() as int);
        let b = best_position(ps, rem, qu, qu.len() as int);
        assert(!runs_before(ps, rem, qu[m], qu[b]));
        let nq = t.queues[c];
        if b == 0 {
            assert(nq == qu);
            assert(nq[m] == qu[m]);
        } else {
            assert(nq == seq![qu[b]] + qu.remove(b));
            assert(nq[0] == qu[b]);
            if m < b {
                assert(nq[m + 1] == qu[m]);
            } else if m == b {
                assert(nq[0] == qu[m]);
            } else {
                assert(nq[m] == qu[m]);
            }
        }
        assert(qu[b] == nq[0]);
    }
}

/// Under multicore Round Robin, readying the cores gives a fresh quantum
/// only to a process that has just come to the front of its core's queue: a
/// front process that already held the quantum keeps what it had left.
pub proof fn lemma_rr_quantum_renewed_only_for_new_front(ps: Seq<Process>, cfg: McConfig, s: McState)
    requires
        cfg.algorithm == MulticoreAlgorithm::Rr,
        0 <= cfg.cores <= s.queues.len(),
        s.quantum_left.len() == s.queues.len(),
        s.head.len() == s.queues.len(),
    ensures
        ({
            let t = mc_select(ps, cfg, s, cfg.cores);
            &&& t.queues == s.queues
            &&& t.remaining == s.remaining
            &&& forall|c: int|
                0 <= c < cfg.cores && s.queues[c].len() > 0 ==> {
                    &&& #[trigger] t.head[c] == Some(s.queues[c][0])
                    &&& s.head[c] == Some(s.queues[c][0]) ==> t.quantum_left[c] == s.quantum_left[c]
                    &&& s.head[c] != Some(s.queues[c][0]) ==> t.quantum_left[c] == cfg.quantum
                }
        }),
{
    lemma_mc_select_cores(ps, cfg, s, cfg.cores);
    let t = mc_select(ps, cfg, s, cfg.cores);
    assert(t.queues =~= s.queues) by {
        assert forall|c: int| 0 <= c < s.queues.len() implies t.queues[c] == s.queues[c] by {
            if c < cfg.cores {
                assert(t.queues[c] == select_core(ps, cfg, s, c).queues[c]);
            }
        }
    }
}

proof fn lemma_mc_event_bound(ps: Seq<Process>, o: Seq<int>, cfg: McConfig, s: McState, k: int, c: int)
    requires
        0 <= c < k,
        core_event(cfg, s, c) is Some,
    ensures
        mc_event(ps, o, cfg, s, k) is Some,
        mc_event(ps, o, cfg, s, k).unwrap() <= core_event(cfg, s, c).unwrap(),
    decreases k,
{
    if c < k - 1 {
        lemma_mc_event_bound(ps, o, cfg, s, k - 1, c);
    }
}

/// Every busy core runs its front process, up to the next event, no longer
/// than the work that process has left and, under Round Robin, no longer
/// than what is left of the core's quantum.
pub proof fn lemma_next_event_within_turn(ps: Seq<Process>, o: Seq<int>, cfg: McConfig, s: McState, c: int)
    requires
        0 <= c < cfg.cores,
        s.queues[c].len() > 0,
    ensures
        mc_event(ps, o, cfg, s, cfg.cores) is Some,
        mc_event(ps, o, cfg, s, cfg.cores).unwrap() <= s.time + s.remaining[s.queues[c][0]],
        cfg.algorithm == MulticoreAlgorithm::Rr ==> mc_event(ps, o, cfg, s, cfg.cores).unwrap()
            <= s.time + s.quantum_left[c],
{
    lemma_mc_event_bound(ps, o, cfg, s, cfg.cores, c);
}

} // verus!
