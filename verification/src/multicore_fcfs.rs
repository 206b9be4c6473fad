//! Multicore FCFS never preempts: every process runs in one piece, on one
//! core.
use vstd::prelude::*;
use crate::process::Process;
use crate::multicore::MulticoreAlgorithm;
use crate::timeline::{SliceView, append_slice_spec, slices_within};
use crate::multicore_steps::{
    McState, McConfig, mc_inv, mc_admit, mc_migrate, mc_select, select_core, mc_prepared, mc_round,
    mc_event, mc_start, all_idle, run_phase, applied, steal, first_idle, donor, lemma_mc_admit,
    lemma_mc_migrate, lemma_first_idle, lemma_donor, lemma_steal, lemma_mod_core,
};
use crate::multicore_round::{
    run_ready, front_done, front_rotates, lemma_phase_shape, lemma_mc_round,
    lemma_mc_select_shape,
};
use crate::work::has_work;

verus! {

/// No two slices, on one core or on two, belong to the same process.
pub open spec fn one_piece_on_cores(sl: Seq<Seq<SliceView>>) -> bool {
    forall|c1: int, k1: int, c2: int, k2: int|
        0 <= c1 < sl.len() && 0 <= c2 < sl.len() && 0 <= k1 < sl[c1].len() && 0 <= k2 < sl[c2].len()
            && (c1 != c2 || k1 != k2) ==> (#[trigger] sl[c1][k1]).process != (#[trigger] sl[c2][k2]).process
}

/// Under FCFS every process has at most one slice, and a process with work
/// left that has one is at the front of that slice's core, whose timeline
/// it ends at the current time.
pub open spec fn fcfs_whole(ps: Seq<Process>, cfg: McConfig, s: McState) -> bool {
    cfg.algorithm == MulticoreAlgorithm::Fcfs ==> {
        &&& one_piece_on_cores(s.slices)
        &&& forall|c: int, k: int, i: int|
            0 <= c < s.slices.len() && 0 <= k < s.slices[c].len() && 0 <= i < ps.len()
                && (#[trigger] s.slices[c][k]).process == (#[trigger] ps[i]).name@ && s.remaining[i] > 0
                ==> k == s.slices[c].len() - 1 && s.slices[c][k].end == s.time && s.queues[c].len() > 0
                && s.queues[c][0] == i
    }
}

/// `t` has the clock, work and timelines of `s`, and every busy core of `s`
/// keeps its front process.
pub open spec fn fronts_kept(s: McState, t: McState) -> bool {
    &&& t.time == s.time
    &&& t.remaining == s.remaining
    &&& t.slices == s.slices
    &&& t.queues.len() == s.queues.len()
    &&& forall|c: int|
        0 <= c < s.queues.len() && (#[trigger] s.queues[c]).len() > 0 ==> t.queues[c].len() > 0
            && t.queues[c][0] == s.queues[c][0]
}

proof fn lemma_fronts_kept(ps: Seq<Process>, cfg: McConfig, s: McState, t: McState)
    requires
        fcfs_whole(ps, cfg, s),
        fronts_kept(s, t),
        s.slices.len() <= s.queues.len(),
    ensures
        fcfs_whole(ps, cfg, t),
{
    if cfg.algorithm == MulticoreAlgorithm::Fcfs {
        assert forall|c: int, k: int, i: int|
            0 <= c < t.slices.len() && 0 <= k < t.slices[c].len() && 0 <= i < ps.len()
                && (#[trigger] t.slices[c][k]).process == (#[trigger] ps[i]).name@ && t.remaining[i] > 0 implies k
            == t.slices[c].len() - 1 && t.slices[c][k].end == t.time && t.queues[c].len() > 0 && t.queues[c][0]
            == i by {
            assert(s.slices[c][k].process == ps[i].name@);
            assert(s.queues[c].len() > 0);
        }
    }
}

proof fn lemma_admit_fronts(ps: Seq<Process>, o: Seq<int>, nc: int, s: McState)
    requires
        nc == 2 || nc == 4,
        s.queues.len() == nc,
        0 <= s.next,
    ensures
        fronts_kept(s, mc_admit(ps, o, nc, s)),
    decreases ps.len() - s.next,
{
    if 0 <= s.next < ps.len() && ps[o[s.next]].arrival <= s.time {
        let c = s.next % nc;
        lemma_mod_core(s.next, nc);
        let u = McState { next: s.next + 1, queues: s.queues.update(c, s.queues[c].push(o[s.next])), ..s };
        lemma_admit_fronts(ps, o, nc, u);
        assert forall|c2: int| 0 <= c2 < s.queues.len() && (#[trigger] s.queues[c2]).len() > 0 implies u.queues[c2].len()
            > 0 && u.queues[c2][0] == s.queues[c2][0] by {
            if c2 == c {
                assert(u.queues[c2] == s.queues[c].push(o[s.next]));
            }
        }
        let t = mc_admit(ps, o, nc, s);
        assert(t == mc_admit(ps, o, nc, u));
        assert forall|c2: int| 0 <= c2 < s.queues.len() && (#[trigger] s.queues[c2]).len() > 0 implies t.queues[c2].len()
            > 0 && t.queues[c2][0] == s.queues[c2][0] by {
            assert(u.queues[c2].len() > 0);
        }
    }
}

proof fn lemma_migrate_fronts(ps: Seq<Process>, o: Seq<int>, cfg: McConfig, s: McState, fuel: nat)
    requires
        mc_inv(ps, o, cfg, s),
    ensures
        fronts_kept(s, mc_migrate(ps, cfg.cores, s, fuel)),
    decreases fuel,
{
    let nc = cfg.cores;
    if fuel > 0 {
        lemma_first_idle(s.queues, nc);
        lemma_donor(s.queues, nc);
        match (first_idle(s.queues, nc), donor(s.queues, nc)) {
            (Some(r), Some(d)) => {
                lemma_steal(ps, o, cfg, s, d, r);
                let u = steal(ps, s, d, r);
                lemma_migrate_fronts(ps, o, cfg, u, (fuel - 1) as nat);
                let t = mc_migrate(ps, nc, s, fuel);
                assert forall|c: int| 0 <= c < s.queues.len() && (#[trigger] s.queues[c]).len() > 0 implies u.queues[c].len()
                    > 0 && u.queues[c][0] == s.queues[c][0] by {
                    if c == d {
                        assert(u.queues[c] == s.queues[d].drop_last());
                    } else {
                        assert(c != r);
                        assert(u.queues[c] == s.queues[c]);
                    }
                }
                assert forall|c: int| 0 <= c < s.queues.len() && (#[trigger] s.queues[c]).len() > 0 implies t.queues[c].len()
                    > 0 && t.queues[c][0] == s.queues[c][0] by {
                    assert(u.queues[c].len() > 0);
                }
            },
            _ => {},
        }
    }
}

/// Under FCFS readying the cores changes nothing.
proof fn lemma_select_fcfs(ps: Seq<Process>, o: Seq<int>, cfg: McConfig, s: McState)
    requires
        mc_inv(ps, o, cfg, s),
        cfg.algorithm == MulticoreAlgorithm::Fcfs,
    ensures
        fronts_kept(s, mc_select(ps, cfg, s, cfg.cores)),
{
    lemma_mc_select_shape(ps, cfg, s, cfg.cores);
    let t = mc_select(ps, cfg, s, cfg.cores);
    assert forall|c: int| 0 <= c < s.queues.len() && (#[trigger] s.queues[c]).len() > 0 implies t.queues[c].len()
        > 0 && t.queues[c][0] == s.queues[c][0] by {
        assert(t.queues[c] == select_core(ps, cfg, s, c).queues[c]);
    }
}

/// Running up to `ev` under FCFS keeps every process in one piece.
proof fn lemma_phase_fcfs(ps: Seq<Process>, o: Seq<int>, cfg: McConfig, s: McState, ev: int)
    requires
        run_ready(ps, o, cfg, s, ev),
        fcfs_whole(ps, cfg, s),
        cfg.algorithm == MulticoreAlgorithm::Fcfs,
    ensures
        fcfs_whole(ps, cfg, run_phase(ps, cfg, s, ev)),
{
    lemma_phase_shape(ps, o, cfg, s, ev);
    let v = run_phase(ps, cfg, s, ev);
    let u = applied(ps, cfg, s, ev);
    let nc = cfg.cores;
    let sl = s.slices;
    let vl = v.slices;
    let n = ps.len();
    // a busy core extends the last slice of its front process when it has
    // one, and otherwise adds one
    assert forall|c: int, k: int| 0 <= c < nc && 0 <= k < vl[c].len() implies {
        ||| (k < sl[c].len() && #[trigger] vl[c][k] == sl[c][k] && (s.queues[c].len() > 0 ==> !(k == sl[c].len() - 1
            && sl[c][k].process == ps[s.queues[c][0]].name@ && sl[c][k].end == s.time)))
        ||| (s.queues[c].len() > 0 && k == vl[c].len() - 1 && vl[c][k].process == ps[s.queues[c][0]].name@
            && vl[c][k].end == ev)
    } by {
        assert(slices_within(sl[c], s.time));
        if s.queues[c].len() > 0 {
            let x = s.queues[c][0];
            let name = ps[x].name@;
            if sl[c].len() > 0 && sl[c].last().process == name && sl[c].last().end == s.time {
                assert(vl[c].len() == sl[c].len());
                if k < sl[c].len() - 1 {
                    assert(vl[c][k] == sl[c][k]);
                }
            } else {
                assert(vl[c] == sl[c].push(SliceView { process: name, start: s.time, end: ev }));
                if k < sl[c].len() {
                    assert(vl[c][k] == sl[c][k]);
                    if k == sl[c].len() - 1 {
                        assert(sl[c].last() == sl[c][k]);
                    }
                }
            }
        } else {
            assert(vl[c] == sl[c]);
        }
    }
    // an old slice of a process with work left sits at the end of its
    // core's timeline, whose front it is
    assert forall|c: int, k: int, i: int|
        0 <= c < nc && 0 <= k < sl[c].len() && 0 <= i < n && (#[trigger] sl[c][k]).process == (#[trigger] ps[i]).name@
            && s.remaining[i] > 0 implies k == sl[c].len() - 1 && sl[c][k].end == s.time && s.queues[c].len() > 0
        && s.queues[c][0] == i by {
    }
    assert(one_piece_on_cores(vl)) by {
        assert forall|c1: int, k1: int, c2: int, k2: int|
            0 <= c1 < vl.len() && 0 <= c2 < vl.len() && 0 <= k1 < vl[c1].len() && 0 <= k2 < vl[c2].len() && (c1
                != c2 || k1 != k2) implies (#[trigger] vl[c1][k1]).process != (#[trigger] vl[c2][k2]).process by {
            let a = vl[c1][k1];
            let b = vl[c2][k2];
            let new1 = s.queues[c1].len() > 0 && k1 == vl[c1].len() - 1 && a.process == ps[s.queues[c1][0]].name@
                && a.end == ev;
            let new2 = s.queues[c2].len() > 0 && k2 == vl[c2].len() - 1 && b.process == ps[s.queues[c2][0]].name@
                && b.end == ev;
            if new1 && new2 {
                if c1 != c2 {
                    assert(s.queues[c1][0] != s.queues[c2][0]);
                    assert(ps[s.queues[c1][0]].name@ != ps[s.queues[c2][0]].name@);
                }
            } else if new1 {
                // `b` is an old slice, kept
                assert(k2 < sl[c2].len() && b == sl[c2][k2]);
                let x = s.queues[c1][0];
                if b.process == a.process {
                    assert(s.remaining[x] > 0);
                    assert(sl[c2][k2].process == ps[x].name@);
                    assert(s.queues[c2][0] == x);
                    if c1 != c2 {
                        assert(s.queues[c1][0] != s.queues[c2][0]);
                    }
                    assert(k2 == sl[c2].len() - 1 && sl[c2][k2].end == s.time);
                }
            } else if new2 {
                assert(k1 < sl[c1].len() && a == sl[c1][k1]);
                let x = s.queues[c2][0];
                if b.process == a.process {
                    assert(s.remaining[x] > 0);
                    assert(sl[c1][k1].process == ps[x].name@);
                    assert(s.queues[c1][0] == x);
                    if c1 != c2 {
                        assert(s.queues[c1][0] != s.queues[c2][0]);
                    }
                    assert(k1 == sl[c1].len() - 1 && sl[c1][k1].end == s.time);
                }
            } else {
                assert(k1 < sl[c1].len() && a == sl[c1][k1]);
                assert(k2 < sl[c2].len() && b == sl[c2][k2]);
            }
        }
    }
    assert forall|c: int, k: int, i: int|
        0 <= c < vl.len() && 0 <= k < vl[c].len() && 0 <= i < n && (#[trigger] vl[c][k]).process == (
        #[trigger] ps[i]).name@ && v.remaining[i] > 0 implies k == vl[c].len() - 1 && vl[c][k].end == v.time
        && v.queues[c].len() > 0 && v.queues[c][0] == i by {
        let a = vl[c][k];
        if s.queues[c].len() > 0 && k == vl[c].len() - 1 && a.process == ps[s.queues[c][0]].name@ && a.end == ev {
            let x = s.queues[c][0];
            assert(ps[x].name@ == ps[i].name@);
            assert(x == i);
            assert(!front_done(u, c));
            assert(!front_rotates(cfg, u, c));
        } else {
            assert(k < sl[c].len() && a == sl[c][k]);
            assert(s.remaining[i] > 0);
            assert(k == sl[c].len() - 1 && sl[c][k].end == s.time && s.queues[c][0] == i);
        }
    }
}

/// A round under FCFS keeps every process in one piece.
pub proof fn lemma_fcfs_round(ps: Seq<Process>, o: Seq<int>, cfg: McConfig, s: McState)
    requires
        mc_inv(ps, o, cfg, s),
        fcfs_whole(ps, cfg, s),
        has_work(mc_admit(ps, o, cfg.cores, s).remaining),
    ensures
        fcfs_whole(ps, cfg, mc_round(ps, o, cfg, s)),
{
    if cfg.algorithm == MulticoreAlgorithm::Fcfs {
        let nc = cfg.cores;
        lemma_mc_round(ps, o, cfg, s);
        lemma_mc_admit(ps, o, cfg, s);
        let s1 = mc_admit(ps, o, nc, s);
        lemma_admit_fronts(ps, o, nc, s);
        lemma_fronts_kept(ps, cfg, s, s1);
        let s2 = if cfg.stealing {
            mc_migrate(ps, nc, s1, nc as nat)
        } else {
            s1
        };
        lemma_migrate_fronts(ps, o, cfg, s1, nc as nat);
        lemma_fronts_kept(ps, cfg, s1, s2);
        lemma_mc_migrate(ps, o, cfg, s1, nc as nat);
        lemma_select_fcfs(ps, o, cfg, s2);
        let s3 = mc_prepared(ps, o, cfg, s);
        lemma_fronts_kept(ps, cfg, s2, s3);
        match mc_event(ps, o, cfg, s3, nc) {
            None => {},
            Some(ev) => {
                if all_idle(s3.queues) {
                    let t = McState { time: ev, ..s3 };
                    assert forall|c: int, k: int, i: int|
                        0 <= c < t.slices.len() && 0 <= k < t.slices[c].len() && 0 <= i < ps.len()
                            && (#[trigger] t.slices[c][k]).process == (#[trigger] ps[i]).name@ && t.remaining[i]
                            > 0 implies k == t.slices[c].len() - 1 && t.slices[c][k].end == t.time
                        && t.queues[c].len() > 0 && t.queues[c][0] == i by {
                        assert(s3.slices[c][k].process == ps[i].name@);
                        assert(s3.queues[c].len() == 0);
                    }
                } else {
                    lemma_phase_fcfs(ps, o, cfg, s3, ev);
                }
            },
        }
    }
}

/// At the start nothing has run.
pub proof fn lemma_fcfs_start(ps: Seq<Process>, cfg: McConfig)
    ensures
        fcfs_whole(ps, cfg, mc_start(ps, cfg.cores)),
{
}

/// Dealing arrivals keeps every process in one piece.
pub proof fn lemma_fcfs_admit(ps: Seq<Process>, o: Seq<int>, cfg: McConfig, s: McState)
    requires
        mc_inv(ps, o, cfg, s),
        fcfs_whole(ps, cfg, s),
    ensures
        fcfs_whole(ps, cfg, mc_admit(ps, o, cfg.cores, s)),
{
    lemma_admit_fronts(ps, o, cfg.cores, s);
    lemma_fronts_kept(ps, cfg, s, mc_admit(ps, o, cfg.cores, s));
}

} // verus!
