//! The executable multicore run: a state that the steps of
//! `multicore_steps` describe, moved one round at a time.
use vstd::prelude::*;
use crate::names::str_less;
use crate::order::{usize_seq_to_int, is_arrival_order};
use crate::process::{Process, valid_processes, within_limits, MAX_TICKS, MAX_PROCESSES, TICKS_PER_UNIT};
use crate::timeline::{ExecutionSlice, slices_view, append_slice};
use crate::work::{has_work, sum_of, services, i64_seq_to_int, lemma_sum_nonneg, lemma_sum_bound};
use crate::multicore::{MulticoreAlgorithm, MigrationEvent};
use crate::multicore_steps::{
    McState, McConfig, mc_inv, mc_admit, lemma_mc_admit, first_idle, donor, steal, mc_migrate,
    idle_count, lemma_first_idle, lemma_donor, lemma_idle_count_bounds, lemma_steal,
    lemma_mc_migrate_fuel, lemma_mc_migrate, best_position, runs_before, select_core, mc_select,
    mc_event, core_event, apply_core, mc_apply, settle_core, mc_settle, mc_run, mc_start, mc_round,
    mc_prepared, rounds_bound, all_idle, applied,
};
use crate::multicore_round::{
    lemma_select_core, armed, run_ready, fronts_ok, is_front, lemma_phase_shape,
    lemma_mc_apply_shape, lemma_mc_settle_shape, lemma_mc_round, lemma_mc_start,
};
use crate::multicore_fcfs::{fcfs_whole, lemma_fcfs_admit, lemma_fcfs_round, lemma_fcfs_start};

verus! {

/// The state of a multicore run as the machine holds it.
pub struct McRun {
    pub time: i64,
    pub next: usize,
    pub queues: Vec<Vec<usize>>,
    pub quantum_left: Vec<i64>,
    pub head: Vec<Option<usize>>,
    pub remaining: Vec<i64>,
    pub slices: Vec<Vec<ExecutionSlice>>,
    pub migrations: Vec<MigrationEvent>,
}

/// The queues as sequences of process indices.
pub open spec fn queues_view(qs: Seq<Vec<usize>>) -> Seq<Seq<int>> {
    qs.map_values(|q: Vec<usize>| usize_seq_to_int(q@))
}

/// A quantum holder as a mathematical index.
pub open spec fn head_view(h: Option<usize>) -> Option<int> {
    match h {
        Some(x) => Some(x as int),
        None => None,
    }
}

/// The quantum holders of all cores.
pub open spec fn heads_view(hs: Seq<Option<usize>>) -> Seq<Option<int>> {
    hs.map_values(|h: Option<usize>| head_view(h))
}

/// The timelines of all cores.
pub open spec fn timelines_view(sl: Seq<Vec<ExecutionSlice>>) -> Seq<Seq<crate::timeline::SliceView>> {
    sl.map_values(|v: Vec<ExecutionSlice>| slices_view(v@))
}

/// The migrations as mathematical values.
pub open spec fn migrations_view(ms: Seq<MigrationEvent>) -> Seq<crate::multicore::MigrationView> {
    ms.map_values(|m: MigrationEvent| m@)
}

impl McRun {
    /// The mathematical state of the run.
    pub open spec fn state(&self) -> McState {
        McState {
            time: self.time as int,
            next: self.next as int,
            queues: queues_view(self.queues@),
            quantum_left: i64_seq_to_int(self.quantum_left@),
            head: heads_view(self.head@),
            remaining: i64_seq_to_int(self.remaining@),
            slices: timelines_view(self.slices@),
            migrations: migrations_view(self.migrations@),
        }
    }
}

/// Deals the processes that have arrived to the cores in turn.
fn deal_arrivals(run: &mut McRun, processes: &Vec<Process>, order: &Vec<usize>, Ghost(cfg): Ghost<McConfig>)
    requires
        mc_inv(processes@, usize_seq_to_int(order@), cfg, old(run).state()),
    ensures
        final(run).state() == mc_admit(processes@, usize_seq_to_int(order@), cfg.cores, old(run).state()),
{
    let ghost ps = processes@;
    let ghost o = usize_seq_to_int(order@);
    let ghost target = mc_admit(ps, o, cfg.cores, run.state());
    proof {
        lemma_mc_admit(ps, o, cfg, run.state());
    }
    let nc = run.queues.len();
    while run.next < order.len() && processes[order[run.next]].arrival <= run.time
        invariant
            ps == processes@,
            o == usize_seq_to_int(order@),
            o.len() == ps.len(),
            forall|k: int| 0 <= k < o.len() ==> 0 <= #[trigger] o[k] < ps.len(),
            nc == cfg.cores,
            nc == 2 || nc == 4,
            run.queues@.len() == nc,
            run.next <= order@.len(),
            mc_admit(ps, o, cfg.cores, run.state()) == target,
        decreases order@.len() - run.next,
    {
        let ghost s = run.state();
        let ghost qs0 = run.queues@;
        let c = run.next % nc;
        let x = order[run.next];
        assert(o[run.next as int] == x);
        run.queues[c].push(x);
        run.next = run.next + 1;
        proof {
            let t = run.state();
            assert(run.queues@ == qs0.update(c as int, run.queues@[c as int]));
            assert(run.queues@[c as int]@ == qs0[c as int]@.push(x));
            assert(usize_seq_to_int(run.queues@[c as int]@) =~= usize_seq_to_int(qs0[c as int]@).push(x as int));
            assert(t.queues =~= s.queues.update(c as int, s.queues[c as int].push(x as int)));
            assert(t =~= McState { next: s.next + 1, queues: s.queues.update(c as int, s.queues[c as int].push(o[s.next])), ..s });
        }
    }
}

/// The first core whose queue is empty.
fn find_first_idle(queues: &Vec<Vec<usize>>) -> (r: Option<usize>)
    ensures
        head_view(r) == first_idle(queues_view(queues@), queues@.len() as int),
{
    let ghost qv = queues_view(queues@);
    let mut found: Option<usize> = None;
    let mut k: usize = 0;
    while k < queues.len()
        invariant
            qv == queues_view(queues@),
            0 <= k <= queues@.len(),
            head_view(found) == first_idle(qv, k as int),
        decreases queues@.len() - k,
    {
        assert(qv[k as int].len() == queues@[k as int]@.len());
        if found.is_none() && queues[k].len() == 0 {
            found = Some(k);
        }
        k = k + 1;
    }
    found
}

/// The last of the cores with the longest queue, if it holds two or more.
fn find_donor(queues: &Vec<Vec<usize>>) -> (r: Option<usize>)
    ensures
        head_view(r) == donor(queues_view(queues@), queues@.len() as int),
{
    let ghost qv = queues_view(queues@);
    let mut found: Option<usize> = None;
    let mut k: usize = 0;
    while k < queues.len()
        invariant
            qv == queues_view(queues@),
            0 <= k <= queues@.len(),
            head_view(found) == donor(qv, k as int),
            found matches Some(d) ==> d < k,
        decreases queues@.len() - k,
    {
        assert(qv[k as int].len() == queues@[k as int]@.len());
        let len = queues[k].len();
        if len >= 2 {
            match found {
                None => {
                    found = Some(k);
                },
                Some(d) => {
                    assert(qv[d as int].len() == queues@[d as int]@.len());
                    if len >= queues[d].len() {
                        found = Some(k);
                    }
                },
            }
        }
        k = k + 1;
    }
    found
}

/// Core `r` takes the last queued process of core `d`.
fn steal_one(run: &mut McRun, processes: &Vec<Process>, d: usize, r: usize, Ghost(o): Ghost<Seq<int>>, Ghost(cfg): Ghost<McConfig>)
    requires
        mc_inv(processes@, o, cfg, old(run).state()),
        d < cfg.cores,
        r < cfg.cores,
        old(run).state().queues[r as int].len() == 0,
        old(run).state().queues[d as int].len() >= 2,
    ensures
        final(run).state() == steal(processes@, old(run).state(), d as int, r as int),
{
    let ghost s = run.state();
    let ghost qs0 = run.queues@;
    assert(run.queues@[d as int]@.len() >= 2);
    let x = run.queues[d].pop().unwrap();
    let ghost qs1 = run.queues@;
    run.queues[r].push(x);
    assert(s.queues[d as int].last() == x as int);
    assert(0 <= x < processes@.len());
    let name = processes[x].name.clone();
    run.migrations.push(MigrationEvent { process: name, from: d as u8, to: r as u8, at: run.time });
    proof {
        let t = run.state();
        assert(d != r);
        assert(qs1 == qs0.update(d as int, qs1[d as int]));
        assert(run.queues@ == qs1.update(r as int, run.queues@[r as int]));
        assert(usize_seq_to_int(qs1[d as int]@) =~= s.queues[d as int].drop_last());
        assert(usize_seq_to_int(run.queues@[r as int]@) =~= s.queues[r as int].push(x as int));
        assert(t.queues =~= s.queues.update(d as int, s.queues[d as int].drop_last()).update(
            r as int,
            s.queues[r as int].push(x as int),
        ));
        assert(t.migrations =~= s.migrations.push(
            crate::multicore::MigrationView { process: processes@[x as int].name@, from: d as int, to: r as int, at: s.time },
        ));
        assert(t =~= steal(processes@, s, d as int, r as int));
    }
}

/// While some core is idle and some core has two or more queued processes,
/// the first idle core takes the last process of the busiest one.
fn migrate_idle(run: &mut McRun, processes: &Vec<Process>, Ghost(o): Ghost<Seq<int>>, Ghost(cfg): Ghost<McConfig>)
    requires
        mc_inv(processes@, o, cfg, old(run).state()),
    ensures
        final(run).state() == mc_migrate(processes@, cfg.cores, old(run).state(), cfg.cores as nat),
        mc_inv(processes@, o, cfg, final(run).state()),
{
    let ghost ps = processes@;
    let ghost nc = cfg.cores;
    let ghost s0 = run.state();
    let ghost target = mc_migrate(ps, nc, s0, nc as nat);
    proof {
        lemma_idle_count_bounds(s0.queues, nc);
        lemma_mc_migrate_fuel(ps, o, cfg, s0, nc as nat, idle_count(s0.queues, nc) as nat);
        lemma_mc_migrate(ps, o, cfg, s0, nc as nat);
    }
    loop
        invariant_except_break
            ps == processes@,
            nc == cfg.cores,
            mc_inv(ps, o, cfg, run.state()),
            mc_migrate(ps, nc, run.state(), idle_count(run.state().queues, nc) as nat) == target,
            mc_inv(ps, o, cfg, target),
            idle_count(run.state().queues, nc) >= 0,
        ensures
            run.state() == target,
            mc_inv(ps, o, cfg, target),
        decreases idle_count(run.state().queues, nc),
    {
        let ghost s = run.state();
        proof {
            lemma_first_idle(s.queues, nc);
            lemma_donor(s.queues, nc);
            lemma_idle_count_bounds(s.queues, nc);
        }
        let r = find_first_idle(&run.queues);
        let d = find_donor(&run.queues);
        match (r, d) {
            (Some(r), Some(d)) => {
                proof {
                    lemma_steal(ps, o, cfg, s, d as int, r as int);
                }
                steal_one(run, processes, d, r, Ghost(o), Ghost(cfg));
                proof {
                    lemma_idle_count_bounds(run.state().queues, nc);
                }
            },
            _ => {
                break ;
            },
        }
    }
}

/// The position in `q` of the process that runs first under SRT: the least
/// work left, then the smallest name; the first such on a tie.
fn find_best_position(processes: &Vec<Process>, remaining: &Vec<i64>, q: &Vec<usize>) -> (b: usize)
    requires
        q@.len() >= 1,
        forall|k: int| 0 <= k < q@.len() ==> #[trigger] q@[k] < processes@.len(),
        remaining@.len() == processes@.len(),
    ensures
        b == best_position(processes@, i64_seq_to_int(remaining@), usize_seq_to_int(q@), q@.len() as int),
        b < q@.len(),
{
    let ghost ps = processes@;
    let ghost rem = i64_seq_to_int(remaining@);
    let ghost qv = usize_seq_to_int(q@);
    let mut b: usize = 0;
    let mut k: usize = 1;
    while k < q.len()
        invariant
            ps == processes@,
            rem == i64_seq_to_int(remaining@),
            qv == usize_seq_to_int(q@),
            remaining@.len() == ps.len(),
            forall|j: int| 0 <= j < q@.len() ==> #[trigger] q@[j] < ps.len(),
            1 <= k <= q@.len(),
            b < k,
            b == best_position(ps, rem, qv, k as int),
        decreases q@.len() - k,
    {
        let a = q[k];
        let cur = q[b];
        assert(qv[k as int] == a && qv[b as int] == cur);
        assert(rem[a as int] == remaining@[a as int] && rem[cur as int] == remaining@[cur as int]);
        let before = if remaining[a] != remaining[cur] {
            remaining[a] < remaining[cur]
        } else {
            str_less(processes[a].name.as_str(), processes[cur].name.as_str())
        };
        assert(before == runs_before(ps, rem, a as int, cur as int));
        if before {
            b = k;
        }
        k = k + 1;
    }
    b
}

/// Every queued process is a process of `ps`.
pub open spec fn queued_in_range(s: McState, n: int) -> bool {
    forall|c: int, k: int| 0 <= c < s.queues.len() && 0 <= k < s.queues[c].len() ==> 0 <= #[trigger] s.queues[c][k] < n
}

/// Readies core `c`: under SRT the process with the least work left moves to
/// the front; under RR a new front process gets a fresh quantum.
fn ready_core(run: &mut McRun, processes: &Vec<Process>, c: usize, alg: MulticoreAlgorithm, quantum: i64, Ghost(cfg): Ghost<McConfig>)
    requires
        c < old(run).queues@.len(),
        old(run).quantum_left@.len() == old(run).queues@.len(),
        old(run).head@.len() == old(run).queues@.len(),
        old(run).remaining@.len() == processes@.len(),
        queued_in_range(old(run).state(), processes@.len() as int),
        cfg.algorithm == alg,
        cfg.quantum == quantum,
    ensures
        final(run).state() == select_core(processes@, cfg, old(run).state(), c as int),
        queued_in_range(final(run).state(), processes@.len() as int),
        final(run).queues@.len() == old(run).queues@.len(),
        final(run).quantum_left@.len() == old(run).queues@.len(),
        final(run).head@.len() == old(run).queues@.len(),
        final(run).remaining@ == old(run).remaining@,
{
    let ghost s = run.state();
    let ghost ps = processes@;
    proof {
        lemma_select_core(ps, cfg, s, c as int);
    }
    let ghost t = select_core(ps, cfg, s, c as int);
    if run.queues[c].len() == 0 {
        assert(t == s);
        return ;
    }
    let ghost qs0 = run.queues@;
    match alg {
        MulticoreAlgorithm::Fcfs => {
            assert(t == s);
        },
        MulticoreAlgorithm::Srt => {
            proof {
                assert forall|k: int| 0 <= k < qs0[c as int]@.len() implies #[trigger] qs0[c as int]@[k] < ps.len() by {
                    assert(s.queues[c as int][k] == qs0[c as int]@[k] as int);
                }
            }
            let b = find_best_position(processes, &run.remaining, &run.queues[c]);
            if b != 0 {
                let x = run.queues[c].remove(b);
                run.queues[c].insert(0, x);
                proof {
                    let qu = s.queues[c as int];
                    assert(usize_seq_to_int(run.queues@[c as int]@) =~= seq![qu[b as int]] + qu.remove(b as int));
                    assert(run.queues@ == qs0.update(c as int, run.queues@[c as int]));
                    assert(run.state().queues =~= t.queues);
                    assert(run.state() =~= t);
                }
            } else {
                assert(t == s);
            }
        },
        MulticoreAlgorithm::Rr => {
            let front = run.queues[c][0];
            assert(s.queues[c as int][0] == front as int);
            let same = match run.head[c] {
                Some(h) => h == front,
                None => false,
            };
            assert(same == (s.head[c as int] == Some(s.queues[c as int][0])));
            if !same {
                run.quantum_left.set(c, quantum);
                run.head.set(c, Some(front));
                proof {
                    assert(run.state().quantum_left =~= t.quantum_left);
                    assert(run.state().head =~= t.head);
                    assert(run.state() =~= t);
                }
            } else {
                assert(t == s);
            }
        },
    }
    proof {
        let u = run.state();
        assert forall|c2: int, k: int| 0 <= c2 < u.queues.len() && 0 <= k < u.queues[c2].len() implies 0
            <= #[trigger] u.queues[c2][k] < ps.len() by {
            if c2 == c {
                let j = crate::multicore_round::select_index(ps, cfg, s, c as int, k);
                assert(u.queues[c2][k] == s.queues[c2][j]);
            } else {
                assert(u.queues[c2] == s.queues[c2]);
            }
        }
    }
}

/// Readies every core.
fn ready_cores(run: &mut McRun, processes: &Vec<Process>, alg: MulticoreAlgorithm, quantum: i64, Ghost(o): Ghost<Seq<int>>, Ghost(cfg): Ghost<McConfig>)
    requires
        mc_inv(processes@, o, cfg, old(run).state()),
        cfg.algorithm == alg,
        cfg.quantum == quantum,
    ensures
        final(run).state() == mc_select(processes@, cfg, old(run).state(), cfg.cores),
{
    let ghost ps = processes@;
    let ghost s0 = run.state();
    let nc = run.queues.len();
    let mut c: usize = 0;
    while c < nc
        invariant
            ps == processes@,
            nc == cfg.cores,
            0 <= c <= nc,
            run.queues@.len() == nc,
            run.quantum_left@.len() == nc,
            run.head@.len() == nc,
            run.remaining@.len() == ps.len(),
            queued_in_range(run.state(), ps.len() as int),
            cfg.algorithm == alg,
            cfg.quantum == quantum,
            run.state() == mc_select(ps, cfg, s0, c as int),
        decreases nc - c,
    {
        ready_core(run, processes, c, alg, quantum, Ghost(cfg));
        c = c + 1;
    }
}

/// The sum of the service times of processes within the limits.
pub proof fn lemma_services_bound(ps: Seq<Process>)
    requires
        within_limits(ps),
    ensures
        sum_of(services(ps)) <= MAX_PROCESSES * MAX_TICKS,
{
    assert forall|i: int| 0 <= i < services(ps).len() implies services(ps)[i] <= MAX_TICKS by {
        assert(services(ps)[i] == ps[i].service);
        assert(-MAX_TICKS <= ps[i].arrival);
    }
    lemma_sum_bound(services(ps));
    assert(ps.len() * MAX_TICKS <= MAX_PROCESSES * MAX_TICKS) by (nonlinear_arith)
        requires
            ps.len() <= MAX_PROCESSES,
    ;
}

/// In every state of a run the clock plus any work left stays far below
/// the limit of `i64`.
pub proof fn lemma_time_fits(ps: Seq<Process>, o: Seq<int>, cfg: McConfig, s: McState)
    requires
        mc_inv(ps, o, cfg, s),
    ensures
        forall|i: int| 0 <= i < ps.len() ==> s.time + #[trigger] s.remaining[i] <= 0x2000_0000_0000_0000,
        0 <= s.time <= 0x2000_0000_0000_0000,
{
    lemma_services_bound(ps);
    lemma_sum_nonneg(s.remaining);
    assert(MAX_PROCESSES * MAX_TICKS == 0x1000_0000_0000_0000int);
}

/// The next event: the next arrival, or on a busy core the end of its front
/// process or, under Round Robin, of its quantum, whichever comes first.
fn next_event(run: &McRun, processes: &Vec<Process>, order: &Vec<usize>, alg: MulticoreAlgorithm, Ghost(cfg): Ghost<McConfig>) -> (r: Option<i64>)
    requires
        mc_inv(processes@, usize_seq_to_int(order@), cfg, run.state()),
        armed(cfg, run.state()),
        cfg.algorithm == alg,
        cfg.quantum <= 6 * TICKS_PER_UNIT,
    ensures
        r is None <==> mc_event(processes@, usize_seq_to_int(order@), cfg, run.state(), cfg.cores) is None,
        r matches Some(e) ==> mc_event(processes@, usize_seq_to_int(order@), cfg, run.state(), cfg.cores)
            == Some(e as int),
{
    let ghost ps = processes@;
    let ghost o = usize_seq_to_int(order@);
    let ghost s = run.state();
    proof {
        lemma_time_fits(ps, o, cfg, s);
    }
    let mut e: Option<i64> = if run.next < order.len() {
        assert(0 <= o[run.next as int] < ps.len());
        Some(processes[order[run.next]].arrival)
    } else {
        None
    };
    let nc = run.queues.len();
    let mut c: usize = 0;
    while c < nc
        invariant
            ps == processes@,
            o == usize_seq_to_int(order@),
            s == run.state(),
            mc_inv(ps, o, cfg, s),
            armed(cfg, s),
            cfg.algorithm == alg,
            cfg.quantum <= 6 * TICKS_PER_UNIT,
            nc == cfg.cores,
            0 <= c <= nc,
            forall|i: int| 0 <= i < ps.len() ==> s.time + #[trigger] s.remaining[i] <= 0x2000_0000_0000_0000,
            0 <= s.time <= 0x2000_0000_0000_0000,
            e is None <==> mc_event(ps, o, cfg, s, c as int) is None,
            e matches Some(y) ==> mc_event(ps, o, cfg, s, c as int) == Some(y as int),
        decreases nc - c,
    {
        assert(s.queues[c as int].len() == run.queues@[c as int]@.len());
        if run.queues[c].len() > 0 {
            let x = run.queues[c][0];
            assert(s.queues[c as int][0] == x as int);
            assert(0 <= x < ps.len());
            assert(s.remaining[x as int] == run.remaining@[x as int]);
            let done = run.time + run.remaining[x];
            let ce = match alg {
                MulticoreAlgorithm::Rr => {
                    assert(s.head[c as int] == Some(s.queues[c as int][0]));
                    assert(s.quantum_left[c as int] == run.quantum_left@[c as int]);
                    let qe = run.time + run.quantum_left[c];
                    if done < qe {
                        done
                    } else {
                        qe
                    }
                },
                _ => done,
            };
            assert(core_event(cfg, s, c as int) == Some(ce as int));
            e = match e {
                Some(y) => Some(
                    if y < ce {
                        y
                    } else {
                        ce
                    },
                ),
                None => Some(ce),
            };
        } else {
            assert(core_event(cfg, s, c as int) is None);
        }
        c = c + 1;
    }
    e
}

/// Every busy core runs its front process up to `ev`.
fn run_cores(run: &mut McRun, processes: &Vec<Process>, ev: i64, alg: MulticoreAlgorithm, Ghost(o): Ghost<Seq<int>>, Ghost(cfg): Ghost<McConfig>)
    requires
        run_ready(processes@, o, cfg, old(run).state(), ev as int),
        cfg.algorithm == alg,
    ensures
        final(run).state() == mc_apply(processes@, cfg, old(run).state(), ev as int, cfg.cores),
{
    let ghost ps = processes@;
    let ghost s0 = run.state();
    proof {
        lemma_phase_shape(ps, o, cfg, s0, ev as int);
        lemma_time_fits(ps, o, cfg, s0);
    }
    let step = ev - run.time;
    let nc = run.queues.len();
    let mut c: usize = 0;
    while c < nc
        invariant
            ps == processes@,
            run_ready(ps, o, cfg, s0, ev as int),
            fronts_ok(s0.queues, s0.remaining),
            cfg.algorithm == alg,
            nc == cfg.cores,
            0 <= c <= nc,
            step == ev - s0.time,
            run.state() == mc_apply(ps, cfg, s0, ev as int, c as int),
        decreases nc - c,
    {
        proof {
            lemma_mc_apply_shape(ps, cfg, s0, ev as int, c as int);
            lemma_mc_apply_shape(ps, cfg, s0, ev as int, c + 1);
        }
        let ghost t = run.state();
        let ghost sl0 = run.slices@;
        assert(t.queues[c as int].len() == run.queues@[c as int]@.len());
        if run.queues[c].len() > 0 {
            let x = run.queues[c][0];
            assert(t.queues[c as int][0] == x as int);
            assert(0 <= x < ps.len());
            assert(!is_front(s0.queues, x as int, c as int)) by {
                if is_front(s0.queues, x as int, c as int) {
                    let c2 = choose|c2: int| 0 <= c2 < c && s0.queues[c2].len() > 0 && #[trigger] s0.queues[c2][0] == x as int;
                    assert(s0.queues[c2][0] != s0.queues[c as int][0]);
                }
            }
            assert(t.remaining[x as int] == run.remaining@[x as int]);
            append_slice(&mut run.slices[c], processes[x].name.as_str(), run.time, ev);
            let left = run.remaining[x] - step;
            run.remaining.set(x, left);
            match alg {
                MulticoreAlgorithm::Rr => {
                    assert(t.quantum_left[c as int] == run.quantum_left@[c as int]);
                    let ql = run.quantum_left[c] - step;
                    run.quantum_left.set(c, ql);
                },
                _ => {},
            }
            proof {
                let u = run.state();
                let w = apply_core(ps, cfg, t, ev as int, c as int);
                assert(run.slices@ == sl0.update(c as int, run.slices@[c as int]));
                assert(u.slices =~= w.slices);
                assert(u.remaining =~= w.remaining);
                assert(u.quantum_left =~= w.quantum_left);
                assert(u =~= w);
            }
        } else {
            assert(apply_core(ps, cfg, t, ev as int, c as int) == t);
        }
        c = c + 1;
    }
}

/// A finished front process leaves its queue; under RR one whose quantum ran
/// out goes to the back.
fn settle_queues(run: &mut McRun, alg: MulticoreAlgorithm, Ghost(cfg): Ghost<McConfig>)
    requires
        queued_in_range(old(run).state(), old(run).remaining@.len() as int),
        old(run).queues@.len() == cfg.cores,
        old(run).head@.len() == cfg.cores,
        old(run).quantum_left@.len() == cfg.cores,
        cfg.algorithm == alg,
    ensures
        final(run).state() == mc_settle(cfg, old(run).state(), cfg.cores),
{
    let ghost s0 = run.state();
    let nc = run.queues.len();
    let mut c: usize = 0;
    while c < nc
        invariant
            nc == cfg.cores,
            0 <= c <= nc,
            queued_in_range(s0, s0.remaining.len() as int),
            s0.queues.len() == nc,
            s0.head.len() == nc,
            run.quantum_left@.len() == nc,
            run.remaining@.len() == s0.remaining.len(),
            cfg.algorithm == alg,
            run.state() == mc_settle(cfg, s0, c as int),
        decreases nc - c,
    {
        proof {
            lemma_mc_settle_shape(cfg, s0, c as int);
        }
        let ghost t = run.state();
        let ghost qs0 = run.queues@;
        assert(t.queues[c as int] == s0.queues[c as int]);
        assert(t.queues[c as int].len() == run.queues@[c as int]@.len());
        if run.queues[c].len() > 0 {
            let x = run.queues[c][0];
            assert(t.queues[c as int][0] == x as int);
            assert(t.remaining[x as int] == run.remaining@[x as int]);
            if run.remaining[x] == 0 {
                run.queues[c].remove(0);
                run.head.set(c, None);
                proof {
                    assert(usize_seq_to_int(run.queues@[c as int]@) =~= t.queues[c as int].drop_first());
                    assert(run.queues@ == qs0.update(c as int, run.queues@[c as int]));
                    assert(run.state().queues =~= settle_core(cfg, t, c as int).queues);
                    assert(run.state().head =~= settle_core(cfg, t, c as int).head);
                    assert(run.state() =~= settle_core(cfg, t, c as int));
                }
            } else {
                let rotate = match alg {
                    MulticoreAlgorithm::Rr => {
                        assert(t.quantum_left[c as int] == run.quantum_left@[c as int]);
                        run.quantum_left[c] == 0
                    },
                    _ => false,
                };
                if rotate {
                    let y = run.queues[c].remove(0);
                    run.queues[c].push(y);
                    run.head.set(c, None);
                    proof {
                        assert(usize_seq_to_int(run.queues@[c as int]@) =~= t.queues[c as int].drop_first().push(
                            x as int,
                        ));
                        assert(run.queues@ == qs0.update(c as int, run.queues@[c as int]));
                        assert(run.state().queues =~= settle_core(cfg, t, c as int).queues);
                        assert(run.state().head =~= settle_core(cfg, t, c as int).head);
                        assert(run.state() =~= settle_core(cfg, t, c as int));
                    }
                } else {
                    assert(settle_core(cfg, t, c as int) == t);
                }
            }
        } else {
            assert(settle_core(cfg, t, c as int) == t);
        }
        c = c + 1;
    }
}

/// Some process has work left.
fn any_work(remaining: &Vec<i64>) -> (r: bool)
    ensures
        r == has_work(i64_seq_to_int(remaining@)),
{
    let ghost rem = i64_seq_to_int(remaining@);
    let mut k: usize = 0;
    while k < remaining.len()
        invariant
            rem == i64_seq_to_int(remaining@),
            0 <= k <= remaining@.len(),
            forall|j: int| 0 <= j < k ==> #[trigger] rem[j] <= 0,
        decreases remaining@.len() - k,
    {
        assert(rem[k as int] == remaining@[k as int]);
        if remaining[k] > 0 {
            return true;
        }
        k = k + 1;
    }
    false
}

/// Every queue is empty.
fn all_cores_idle(queues: &Vec<Vec<usize>>) -> (r: bool)
    ensures
        r == all_idle(queues_view(queues@)),
{
    let ghost qv = queues_view(queues@);
    let mut k: usize = 0;
    while k < queues.len()
        invariant
            qv == queues_view(queues@),
            0 <= k <= queues@.len(),
            forall|c: int| 0 <= c < k ==> (#[trigger] qv[c]).len() == 0,
        decreases queues@.len() - k,
    {
        assert(qv[k as int].len() == queues@[k as int]@.len());
        if queues[k].len() > 0 {
            return false;
        }
        k = k + 1;
    }
    true
}

/// The rest of a round once the arrivals are dealt and some work is left:
/// idle cores steal, the cores are readied, and the clock moves to the next
/// event, with every busy core running up to it.
fn finish_round(run: &mut McRun, processes: &Vec<Process>, order: &Vec<usize>, nc: usize, alg: MulticoreAlgorithm, quantum: i64, stealing: bool, Ghost(s): Ghost<McState>, Ghost(cfg): Ghost<McConfig>)
    requires
        valid_processes(processes@),
        cfg == (McConfig { cores: nc as int, algorithm: alg, quantum: quantum as int, stealing }),
        1 <= quantum <= 6 * TICKS_PER_UNIT,
        mc_inv(processes@, usize_seq_to_int(order@), cfg, s),
        old(run).state() == mc_admit(processes@, usize_seq_to_int(order@), cfg.cores, s),
        has_work(old(run).state().remaining),
    ensures
        final(run).state() == mc_round(processes@, usize_seq_to_int(order@), cfg, s),
{
    let ghost ps = processes@;
    let ghost o = usize_seq_to_int(order@);
    proof {
        lemma_mc_round(ps, o, cfg, s);
    }
    if stealing {
        migrate_idle(run, processes, Ghost(o), Ghost(cfg));
    }
    ready_cores(run, processes, alg, quantum, Ghost(o), Ghost(cfg));
    let ghost s3 = run.state();
    assert(s3 == mc_prepared(ps, o, cfg, s));
    let event = next_event(&*run, processes, order, alg, Ghost(cfg));
    if let Some(ev) = event {
        if all_cores_idle(&run.queues) {
            run.time = ev;
            proof {
                assert(run.state() =~= McState { time: ev as int, ..s3 });
            }
        } else {
            run_cores(run, processes, ev, alg, Ghost(o), Ghost(cfg));
            run.time = ev;
            proof {
                assert(run.state() =~= applied(ps, cfg, s3, ev as int));
            }
            let ghost u = run.state();
            proof {
                lemma_mc_apply_shape(ps, cfg, s3, ev as int, nc as int);
                crate::multicore_round::lemma_phase_shape(ps, o, cfg, s3, ev as int);
                assert(queued_in_range(u, ps.len() as int));
            }
            settle_queues(run, alg, Ghost(cfg));
        }
    }
}

/// The run from its first state: every round deals the arrivals, and ends
/// the run when no work is left.
pub open spec fn mc_outcome(ps: Seq<Process>, o: Seq<int>, cfg: McConfig) -> McState {
    let s0 = mc_start(ps, cfg.cores);
    mc_run(ps, o, cfg, s0, (rounds_bound(ps, o, s0) + 1) as nat)
}

/// Runs `processes`, dealt in the order of arrival `order`, on `nc` cores to
/// the end.
#[verifier::rlimit(40)]
pub(crate) fn run_multicore(processes: &Vec<Process>, order: &Vec<usize>, nc: usize, alg: MulticoreAlgorithm, quantum: i64, stealing: bool, Ghost(cfg): Ghost<McConfig>) -> (run: McRun)
    requires
        valid_processes(processes@),
        is_arrival_order(processes@, usize_seq_to_int(order@)),
        cfg == (McConfig { cores: nc as int, algorithm: alg, quantum: quantum as int, stealing }),
        nc == 2 || nc == 4,
        1 <= quantum <= 6 * TICKS_PER_UNIT,
    ensures
        run.state() == mc_outcome(processes@, usize_seq_to_int(order@), cfg),
        mc_inv(processes@, usize_seq_to_int(order@), cfg, run.state()),
        fcfs_whole(processes@, cfg, run.state()),
        !has_work(run.state().remaining),
{
    let ghost ps = processes@;
    let ghost o = usize_seq_to_int(order@);
    let n = processes.len();
    let mut queues: Vec<Vec<usize>> = Vec::new();
    let mut quantum_left: Vec<i64> = Vec::new();
    let mut head: Vec<Option<usize>> = Vec::new();
    let mut slices: Vec<Vec<ExecutionSlice>> = Vec::new();
    let mut k: usize = 0;
    while k < nc
        invariant
            0 <= k <= nc,
            queues@.len() == k,
            quantum_left@.len() == k,
            head@.len() == k,
            slices@.len() == k,
            forall|c: int| 0 <= c < k ==> (#[trigger] queues@[c])@.len() == 0,
            forall|c: int| 0 <= c < k ==> #[trigger] quantum_left@[c] == 0,
            forall|c: int| 0 <= c < k ==> #[trigger] head@[c] is None,
            forall|c: int| 0 <= c < k ==> (#[trigger] slices@[c])@.len() == 0,
        decreases nc - k,
    {
        queues.push(Vec::new());
        quantum_left.push(0);
        head.push(None);
        slices.push(Vec::new());
        k = k + 1;
    }
    let mut remaining: Vec<i64> = Vec::new();
    let mut i: usize = 0;
    while i < n
        invariant
            ps == processes@,
            n == ps.len(),
            0 <= i <= n,
            remaining@.len() == i,
            forall|j: int| 0 <= j < i ==> #[trigger] remaining@[j] == ps[j].service,
        decreases n - i,
    {
        remaining.push(processes[i].service);
        i = i + 1;
    }
    let mut run = McRun {
        time: 0,
        next: 0,
        queues,
        quantum_left,
        head,
        remaining,
        slices,
        migrations: Vec::new(),
    };
    let ghost s0 = mc_start(ps, nc as int);
    proof {
        let st = run.state();
        assert forall|c: int| 0 <= c < nc implies #[trigger] st.queues[c] == s0.queues[c] by {
            assert(st.queues[c] =~= Seq::<int>::empty());
        }
        assert forall|c: int| 0 <= c < nc implies #[trigger] st.slices[c] == s0.slices[c] by {
            assert(st.slices[c] =~= Seq::<crate::timeline::SliceView>::empty());
        }
        assert(st.queues =~= s0.queues);
        assert(st.quantum_left =~= s0.quantum_left);
        assert(st.head =~= s0.head);
        assert(st.remaining =~= s0.remaining);
        assert(st.slices =~= s0.slices);
        assert(st.migrations =~= s0.migrations);
        assert(st =~= s0);
        lemma_mc_start(ps, o, cfg);
        lemma_fcfs_start(ps, cfg);
        crate::work::lemma_sum_nonneg(s0.remaining);
    }
    let ghost target = mc_outcome(ps, o, cfg);
    let ghost mut fuel: nat = (rounds_bound(ps, o, s0) + 1) as nat;
    loop
        invariant_except_break
            ps == processes@,
            o == usize_seq_to_int(order@),
            valid_processes(ps),
            cfg == (McConfig { cores: nc as int, algorithm: alg, quantum: quantum as int, stealing }),
            1 <= quantum <= 6 * TICKS_PER_UNIT,
            mc_inv(ps, o, cfg, run.state()),
            fcfs_whole(ps, cfg, run.state()),
            fuel > rounds_bound(ps, o, run.state()),
            mc_run(ps, o, cfg, run.state(), fuel) == target,
        ensures
            run.state() == target,
            mc_inv(ps, o, cfg, run.state()),
            fcfs_whole(ps, cfg, run.state()),
            !has_work(run.state().remaining),
        decreases fuel,
    {
        let ghost s = run.state();
        proof {
            lemma_mc_admit(ps, o, cfg, s);
            lemma_fcfs_admit(ps, o, cfg, s);
            crate::work::lemma_sum_nonneg(s.remaining);
        }
        deal_arrivals(&mut run, processes, order, Ghost(cfg));
        if !any_work(&run.remaining) {
            break ;
        }
        proof {
            lemma_mc_round(ps, o, cfg, s);
            lemma_fcfs_round(ps, o, cfg, s);
        }
        finish_round(&mut run, processes, order, nc, alg, quantum, stealing, Ghost(s), Ghost(cfg));
        proof {
            assert(run.state() == mc_round(ps, o, cfg, s));
            fuel = (fuel - 1) as nat;
        }
    }
    run
}

} // verus!
