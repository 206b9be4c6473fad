//! Multicore scheduling: one ready queue per core, processes dealt to the
//! cores in turn as they arrive, optional work stealing by idle cores.
use vstd::prelude::*;
use vstd::string::*;
use crate::names::str_eq;
use crate::order::{arrival_order, sort_by_arrival, usize_seq_to_int};
use crate::process::{
    Process, valid_processes, within_limits, validation_error, normalized, validate_processes,
    MAX_TICKS, TICKS_PER_UNIT,
};
use crate::timeline::{
    ExecutionSlice, ProcessMetrics, SliceView, slices_view, chronological, slices_after_arrival,
    slices_within, time_bound, metrics_table, sorted_metrics, max_end, compute_max_end,
    turnaround_covers_service,
};
use crate::round_robin::{quantum_text, quantum_digit};
use crate::work::has_work;
use crate::multicore_steps::{
    McState, McConfig, total_run_time, latest_end, latest_end_on_cores, migrations_ok,
    one_core_at_a_time,
};
use crate::multicore_fcfs::one_piece_on_cores;
use crate::multicore_run::{
    mc_outcome, run_multicore, timelines_view, migrations_view, lemma_time_fits,
};

verus! {

/// The algorithms that run on several cores.
#[derive(Debug, Clone, Copy, PartialEq, Eq, Structural)]
pub enum MulticoreAlgorithm {
    Fcfs,
    Rr,
    Srt,
}

/// The number of cores.
#[derive(Debug, Clone, Copy, PartialEq, Eq, Structural)]
pub enum Cores {
    Two,
    Four,
}

impl Cores {
    pub open spec fn spec_count(self) -> u8 {
        match self {
            Cores::Two => 2,
            Cores::Four => 4,
        }
    }

    /// The number of cores as a number.
    #[verifier::when_used_as_spec(spec_count)]
    pub fn count(self) -> (r: u8)
        ensures
            r == self.spec_count(),
    {
        match self {
            Cores::Two => 2,
            Cores::Four => 4,
        }
    }
}

/// Whether an idle core takes work from a busy one.
#[derive(Debug, Clone, Copy, PartialEq, Eq, Structural)]
pub enum Migration {
    Off,
    OnIdle,
}

/// A Round Robin quantum between 1 and 6 time units.
#[derive(Debug, Clone, Copy, PartialEq, Eq, Structural)]
pub struct Quantum(u32);

impl Quantum {
    /// The number of time units of the quantum.
    pub closed spec fn units(self) -> u32 {
        self.0
    }

    #[verifier::type_invariant]
    spec fn in_range(self) -> bool {
        1 <= self.0 <= 6
    }

    /// The quantum of `q` time units, if `q` is between 1 and 6.
    pub fn new(q: u32) -> (r: Option<Self>)
        ensures
            r is Some <==> 1 <= q <= 6,
            r matches Some(x) ==> x.units() == q,
    {
        if 1 <= q && q <= 6 {
            Some(Quantum(q))
        } else {
            None
        }
    }

    /// The number of time units of the quantum.
    pub fn get(self) -> (r: u32)
        ensures
            r == self.units(),
            1 <= r <= 6,
    {
        proof {
            use_type_invariant(&self);
        }
        self.0
    }
}

/// A process moved from the queue of one core to the queue of another.
#[derive(Debug, Clone, PartialEq)]
pub struct MigrationEvent {
    pub process: String,
    pub from: u8,
    pub to: u8,
    pub at: i64,
}

/// The mathematical value of a migration event.
pub struct MigrationView {
    pub process: Seq<char>,
    pub from: int,
    pub to: int,
    pub at: int,
}

impl View for MigrationEvent {
    type V = MigrationView;

    open spec fn view(&self) -> MigrationView {
        MigrationView { process: self.process@, from: self.from as int, to: self.to as int, at: self.at as int }
    }
}

/// A multicore schedule: the timeline of every core, the migrations, the
/// metrics of every process (ordered by name) and the time at which the
/// last slice ends.
#[derive(Debug, Clone)]
pub struct MulticoreScheduleResult {
    pub algorithm: String,
    pub cores: u8,
    pub slices_per_core: Vec<Vec<ExecutionSlice>>,
    pub migrations: Vec<MigrationEvent>,
    pub metrics: Vec<(String, ProcessMetrics)>,
    pub total_completion_time: i64,
}

/// The settings of a multicore schedule.
#[derive(Debug, Clone, Copy, PartialEq, Eq, Structural)]
pub struct MulticoreConfig {
    pub cores: Cores,
    pub algorithm: MulticoreAlgorithm,
    pub quantum: Quantum,
    pub migration: Migration,
}

impl MulticoreConfig {
    /// An idle core takes work from a busy one.
    pub fn migration_active(&self) -> (r: bool)
        ensures
            r == (self.migration == Migration::OnIdle),
    {
        match self.migration {
            Migration::OnIdle => true,
            Migration::Off => false,
        }
    }
}

/// The settings of the run for `config`, with the quantum in ticks.
pub open spec fn mc_settings(config: MulticoreConfig) -> McConfig {
    McConfig {
        cores: config.cores.spec_count() as int,
        algorithm: config.algorithm,
        quantum: config.quantum.units() * TICKS_PER_UNIT,
        stealing: config.migration == Migration::OnIdle,
    }
}

/// The state at the end of the multicore run of `ps` under `config`.
pub open spec fn multicore_outcome(ps: Seq<Process>, config: MulticoreConfig) -> McState {
    mc_outcome(ps, arrival_order(ps), mc_settings(config))
}

/// When `p` finishes on the timelines `sl`: the latest end of its slices, or
/// its arrival plus its service time when it has none.
pub open spec fn mc_finish_time(sl: Seq<Seq<SliceView>>, p: Process) -> int {
    match latest_end_on_cores(sl, p.name@) {
        Some(e) => e,
        None => p.arrival + p.service,
    }
}

/// The finish time of every process of `ps` on the timelines `sl`.
pub open spec fn mc_finish_times(ps: Seq<Process>, sl: Seq<Seq<SliceView>>) -> Seq<int> {
    Seq::new(ps.len(), |i: int| mc_finish_time(sl, ps[i]))
}

/// The latest end of a slice on any of the timelines `sl`, or 0 for none.
pub open spec fn cores_max_end(sl: Seq<Seq<SliceView>>) -> int
    decreases sl.len(),
{
    if sl.len() == 0 {
        0
    } else {
        let m = cores_max_end(sl.drop_last());
        let e = max_end(sl.last());
        if e > m {
            e
        } else {
            m
        }
    }
}

/// The number of cores as text.
pub open spec fn cores_text(cores: Cores) -> Seq<char> {
    match cores {
        Cores::Two => "2"@,
        Cores::Four => "4"@,
    }
}

/// The name of the multicore schedule for `config`, such as `RR q=2 (4c)`.
pub open spec fn multicore_label(config: MulticoreConfig) -> Seq<char> {
    let name = match config.algorithm {
        MulticoreAlgorithm::Fcfs => "FCFS"@,
        MulticoreAlgorithm::Rr => "RR q="@ + quantum_text(config.quantum.units()),
        MulticoreAlgorithm::Srt => "SRT"@,
    };
    name + " ("@ + cores_text(config.cores) + "c)"@
}

/// Every core runs one process at a time and never one before it arrives,
/// no process runs on two cores at once, and every process of `ps` runs,
/// over all cores, for exactly its service time.
pub open spec fn cores_serve_exactly(ps: Seq<Process>, sl: Seq<Seq<SliceView>>) -> bool {
    &&& forall|c: int|
        0 <= c < sl.len() ==> chronological(#[trigger] sl[c]) && slices_after_arrival(ps, sl[c])
    &&& one_core_at_a_time(sl)
    &&& forall|i: int| 0 <= i < ps.len() ==> total_run_time(sl, (#[trigger] ps[i]).name@) == ps[i].service
}

/// `r` is the multicore schedule of `ps` under `config`.
pub open spec fn describes_multicore(r: MulticoreScheduleResult, config: MulticoreConfig, ps: Seq<Process>) -> bool {
    let fin = multicore_outcome(ps, config);
    &&& r.algorithm@ == multicore_label(config)
    &&& r.cores == config.cores.spec_count()
    &&& timelines_view(r.slices_per_core@) == fin.slices
    &&& migrations_view(r.migrations@) == fin.migrations
    &&& metrics_table(ps, mc_finish_times(ps, fin.slices), r.metrics@)
    &&& r.total_completion_time == cores_max_end(fin.slices)
}

/// An optional time as a mathematical integer.
pub open spec fn opt_int(r: Option<i64>) -> Option<int> {
    match r {
        Some(x) => Some(x as int),
        None => None,
    }
}

proof fn lemma_latest_end_bounds(s: Seq<SliceView>, name: Seq<char>, bound: int)
    requires
        slices_within(s, bound),
    ensures
        latest_end(s, name) matches Some(e) ==> 0 <= e <= bound,
    decreases s.len(),
{
    if s.len() > 0 {
        assert(s.last() == s[s.len() - 1]);
        assert(slices_within(s.drop_last(), bound)) by {
            assert forall|k: int| 0 <= k < s.len() - 1 implies 0 <= (#[trigger] s.drop_last()[k]).start
                <= s.drop_last()[k].end <= bound by {
                assert(s.drop_last()[k] == s[k]);
            }
        }
        lemma_latest_end_bounds(s.drop_last(), name, bound);
    }
}

proof fn lemma_latest_end_on_cores_bounds(sl: Seq<Seq<SliceView>>, name: Seq<char>, bound: int)
    requires
        forall|c: int| 0 <= c < sl.len() ==> slices_within(#[trigger] sl[c], bound),
    ensures
        latest_end_on_cores(sl, name) matches Some(e) ==> 0 <= e <= bound,
    decreases sl.len(),
{
    if sl.len() > 0 {
        assert forall|c: int| 0 <= c < sl.len() - 1 implies slices_within(#[trigger] sl.drop_last()[c], bound) by {
            assert(sl.drop_last()[c] == sl[c]);
        }
        lemma_latest_end_on_cores_bounds(sl.drop_last(), name, bound);
        assert(slices_within(sl[sl.len() - 1], bound));
        lemma_latest_end_bounds(sl.last(), name, bound);
    }
}

/// The latest end of a slice of `name` in `slices`.
fn find_latest_end(slices: &Vec<ExecutionSlice>, name: &str) -> (r: Option<i64>)
    ensures
        opt_int(r) == latest_end(slices_view(slices@), name@),
{
    let ghost sv = slices_view(slices@);
    let mut found: Option<i64> = None;
    let mut k: usize = 0;
    while k < slices.len()
        invariant
            sv == slices_view(slices@),
            0 <= k <= slices@.len(),
            opt_int(found) == latest_end(sv.subrange(0, k as int), name@),
        decreases slices@.len() - k,
    {
        assert(sv.subrange(0, k + 1).drop_last() =~= sv.subrange(0, k as int));
        if str_eq(slices[k].process.as_str(), name) {
            let e = slices[k].end;
            found = match found {
                Some(x) => Some(
                    if x >= e {
                        x
                    } else {
                        e
                    },
                ),
                None => Some(e),
            };
        }
        k = k + 1;
    }
    assert(sv.subrange(0, k as int) =~= sv);
    found
}

/// The latest end of a slice of `name` on any core.
fn find_latest_end_on_cores(slices: &Vec<Vec<ExecutionSlice>>, name: &str) -> (r: Option<i64>)
    ensures
        opt_int(r) == latest_end_on_cores(timelines_view(slices@), name@),
{
    let ghost tv = timelines_view(slices@);
    let mut found: Option<i64> = None;
    let mut c: usize = 0;
    while c < slices.len()
        invariant
            tv == timelines_view(slices@),
            0 <= c <= slices@.len(),
            opt_int(found) == latest_end_on_cores(tv.subrange(0, c as int), name@),
        decreases slices@.len() - c,
    {
        assert(tv.subrange(0, c + 1).drop_last() =~= tv.subrange(0, c as int));
        assert(tv.subrange(0, c + 1).last() == slices_view(slices@[c as int]@));
        let e = find_latest_end(&slices[c], name);
        found = match (found, e) {
            (Some(x), Some(y)) => Some(
                if x >= y {
                    x
                } else {
                    y
                },
            ),
            (Some(x), None) => Some(x),
            (None, y) => y,
        };
        c = c + 1;
    }
    assert(tv.subrange(0, c as int) =~= tv);
    found
}

/// The latest end of a slice on any core, or 0 for none.
fn compute_cores_max_end(slices: &Vec<Vec<ExecutionSlice>>) -> (r: i64)
    requires
        forall|c: int| 0 <= c < slices@.len() ==> slices_within(#[trigger] timelines_view(slices@)[c], time_bound()),
    ensures
        r == cores_max_end(timelines_view(slices@)),
{
    let ghost tv = timelines_view(slices@);
    let mut m: i64 = 0;
    let mut c: usize = 0;
    while c < slices.len()
        invariant
            tv == timelines_view(slices@),
            0 <= c <= slices@.len(),
            forall|j: int| 0 <= j < slices@.len() ==> slices_within(#[trigger] tv[j], time_bound()),
            m == cores_max_end(tv.subrange(0, c as int)),
        decreases slices@.len() - c,
    {
        assert(tv.subrange(0, c + 1).drop_last() =~= tv.subrange(0, c as int));
        assert(tv.subrange(0, c + 1).last() == slices_view(slices@[c as int]@));
        assert(slices_within(tv[c as int], time_bound()));
        let e = compute_max_end(&slices[c]);
        if e > m {
            m = e;
        }
        c = c + 1;
    }
    assert(tv.subrange(0, c as int) =~= tv);
    m
}

/// Runs FCFS, Round Robin or SRT on two or four cores: arriving processes
/// are dealt to the cores in turn, each core schedules its own queue, and
/// with migration on an idle core takes the last queued process of the
/// busiest core.
pub fn schedule_multicore(processes: &[Process], config: MulticoreConfig) -> (r: Result<MulticoreScheduleResult, String>)
    requires
        within_limits(processes@),
    ensures
        r is Ok <==> validation_error(processes@) is None,
        r matches Err(m) ==> validation_error(processes@) == Some(m@),
        r matches Ok(res) ==> exists|checked: Seq<Process>|
            normalized(processes@, checked) && describes_multicore(res, config, checked)
                && cores_serve_exactly(checked, timelines_view(res.slices_per_core@))
                && turnaround_covers_service(res.metrics@) && migrations_ok(
                checked,
                config.cores.spec_count() as int,
                migrations_view(res.migrations@),
            ) && (config.algorithm == MulticoreAlgorithm::Fcfs ==> one_piece_on_cores(
                timelines_view(res.slices_per_core@),
            )),
{
    let checked = match validate_processes(processes) {
        Ok(v) => v,
        Err(e) => return Err(e),
    };
    let ghost ps = checked@;
    let cores = config.cores.count();
    let nc = cores as usize;
    let order = sort_by_arrival(&checked);
    let q = config.quantum.get();
    let quantum = q as i64 * TICKS_PER_UNIT;
    let stealing = config.migration_active();
    let ghost cfg = mc_settings(config);
    let ghost o = usize_seq_to_int(order@);
    let run = run_multicore(&checked, &order, nc, config.algorithm, quantum, stealing, Ghost(cfg));
    let ghost fin = run.state();
    proof {
        lemma_time_fits(ps, o, cfg, fin);
        assert forall|c: int| 0 <= c < fin.slices.len() implies slices_within(#[trigger] fin.slices[c], time_bound()) by {
            assert(slices_within(fin.slices[c], fin.time));
            assert forall|k: int| 0 <= k < fin.slices[c].len() implies 0 <= (#[trigger] fin.slices[c][k]).start
                <= fin.slices[c][k].end <= time_bound() by {}
        }
    }
    let n = checked.len();
    let mut finishes: Vec<i64> = Vec::new();
    let mut i: usize = 0;
    while i < n
        invariant
            ps == checked@,
            n == ps.len(),
            valid_processes(ps),
            fin == run.state(),
            forall|c: int| 0 <= c < fin.slices.len() ==> slices_within(#[trigger] fin.slices[c], time_bound()),
            0 <= i <= n,
            finishes@.len() == i,
            forall|j: int| 0 <= j < i ==> #[trigger] finishes@[j] == mc_finish_time(fin.slices, ps[j]),
            forall|j: int| 0 <= j < i ==> 0 <= #[trigger] finishes@[j] <= time_bound(),
        decreases n - i,
    {
        let p = &checked[i];
        proof {
            lemma_latest_end_on_cores_bounds(fin.slices, p.name@, time_bound());
            assert(0 <= p.arrival <= MAX_TICKS);
        }
        let finish = match find_latest_end_on_cores(&run.slices, p.name.as_str()) {
            Some(e) => e,
            None => p.arrival + p.service,
        };
        finishes.push(finish);
        i = i + 1;
    }
    let table = sorted_metrics(&checked, &finishes);
    proof {
        assert(finishes@.map_values(|f: i64| f as int) =~= mc_finish_times(ps, fin.slices));
    }
    let total = compute_cores_max_end(&run.slices);
    let digit = match config.cores {
        Cores::Two => "2",
        Cores::Four => "4",
    };
    let mut label = match config.algorithm {
        MulticoreAlgorithm::Fcfs => String::from_str("FCFS"),
        MulticoreAlgorithm::Rr => {
            let mut l = String::from_str("RR q=");
            l.append(quantum_digit(q));
            l
        },
        MulticoreAlgorithm::Srt => String::from_str("SRT"),
    };
    label.append(" (");
    label.append(digit);
    label.append("c)");
    proof {
        assert(fin == multicore_outcome(ps, config));
        assert forall|i: int| 0 <= i < ps.len() implies fin.remaining[i] == 0 by {
            if fin.remaining[i] > 0 {
                assert(has_work(fin.remaining));
            }
        }
    }
    let res = MulticoreScheduleResult {
        algorithm: label,
        cores,
        slices_per_core: run.slices,
        migrations: run.migrations,
        metrics: table,
        total_completion_time: total,
    };
    proof {
        assert(describes_multicore(res, config, ps));
        assert(cores_serve_exactly(ps, timelines_view(res.slices_per_core@)));
        let fins = mc_finish_times(ps, fin.slices);
        assert forall|k: int| 0 <= k < res.metrics@.len() implies (#[trigger] res.metrics@[k]).1.turnaround_time
            >= res.metrics@[k].1.service_time by {
            assert(crate::timeline::metrics_entry(ps, fins, res.metrics@[k]));
            let i = choose|i: int|
                0 <= i < ps.len() && (#[trigger] ps[i]).name@ == res.metrics@[k].0@
                    && crate::timeline::metrics_match(fins[i], ps[i], res.metrics@[k].1);
            assert(crate::multicore_steps::runs_within(fin.slices, ps[i]));
            assert(total_run_time(fin.slices, ps[i].name@) == ps[i].service);
        }
    }
    Ok(res)
}

/// Some slice of core `c` of `sl` belongs to `name`.
pub open spec fn ran_on(sl: Seq<Seq<SliceView>>, c: int, name: Seq<char>) -> bool {
    exists|k: int| 0 <= k < sl[c].len() && (#[trigger] sl[c][k]).process == name
}

/// The cores, among the first `k`, on which `name` ran, in increasing order.
pub open spec fn cores_ran_on(sl: Seq<Seq<SliceView>>, name: Seq<char>, k: int) -> Seq<int>
    decreases k,
{
    if k <= 0 {
        seq![]
    } else if ran_on(sl, k - 1, name) {
        cores_ran_on(sl, name, k - 1).push(k - 1)
    } else {
        cores_ran_on(sl, name, k - 1)
    }
}

/// Some slice of `slices` belongs to `name`.
fn has_slice_of(slices: &Vec<ExecutionSlice>, name: &str) -> (r: bool)
    ensures
        r == exists|k: int| 0 <= k < slices@.len() && (#[trigger] slices@[k]).process@ == name@,
{
    let mut k: usize = 0;
    while k < slices.len()
        invariant
            0 <= k <= slices@.len(),
            forall|j: int| 0 <= j < k ==> (#[trigger] slices@[j]).process@ != name@,
        decreases slices@.len() - k,
    {
        if str_eq(slices[k].process.as_str(), name) {
            return true;
        }
        k = k + 1;
    }
    false
}

/// The cores on which the process `name` ran in `result`, in increasing
/// order; more than one when it migrated.
pub fn cores_of_process(result: &MulticoreScheduleResult, name: &str) -> (r: Vec<u8>)
    requires
        result.slices_per_core@.len() <= 256,
    ensures
        r@.map_values(|c: u8| c as int) == cores_ran_on(
            timelines_view(result.slices_per_core@),
            name@,
            result.slices_per_core@.len() as int,
        ),
{
    let ghost tv = timelines_view(result.slices_per_core@);
    let mut out: Vec<u8> = Vec::new();
    let mut c: usize = 0;
    while c < result.slices_per_core.len()
        invariant
            tv == timelines_view(result.slices_per_core@),
            result.slices_per_core@.len() <= 256,
            0 <= c <= result.slices_per_core@.len(),
            out@.map_values(|x: u8| x as int) == cores_ran_on(tv, name@, c as int),
        decreases result.slices_per_core@.len() - c,
    {
        let ran = has_slice_of(&result.slices_per_core[c], name);
        proof {
            let sv = tv[c as int];
            assert(sv == slices_view(result.slices_per_core@[c as int]@));
            if ran {
                let k = choose|k: int| 0 <= k < result.slices_per_core@[c as int]@.len()
                    && (#[trigger] result.slices_per_core@[c as int]@[k]).process@ == name@;
                assert(sv[k].process == name@);
            }
            if ran_on(tv, c as int, name@) {
                let k = choose|k: int| 0 <= k < sv.len() && (#[trigger] sv[k]).process == name@;
                assert(result.slices_per_core@[c as int]@[k].process@ == name@);
            }
        }
        let ghost before = out@;
        if ran {
            out.push(c as u8);
            assert(out@.map_values(|x: u8| x as int) =~= before.map_values(|x: u8| x as int).push(c as int));
        }
        c = c + 1;
    }
    out
}

} // verus!
