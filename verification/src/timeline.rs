//! Timelines of execution slices and the metrics computed from them.
use vstd::prelude::*;
use crate::names::{
    chars_less, str_eq, str_less, lemma_chars_less_total, lemma_chars_less_transitive,
    lemma_chars_less_irreflexive,
};
use crate::process::{Process, valid_processes, within_limits, distinct_names, same_table, MAX_TICKS};

verus! {

/// A stretch of time `[start, end)` during which `process` runs.
#[derive(Debug, Clone, PartialEq)]
pub struct ExecutionSlice {
    pub process: String,
    pub start: i64,
    pub end: i64,
}

/// The mathematical value of an execution slice.
pub struct SliceView {
    pub process: Seq<char>,
    pub start: int,
    pub end: int,
}

impl View for ExecutionSlice {
    type V = SliceView;

    open spec fn view(&self) -> SliceView {
        SliceView { process: self.process@, start: self.start as int, end: self.end as int }
    }
}

/// The mathematical value of a timeline.
pub open spec fn slices_view(s: Seq<ExecutionSlice>) -> Seq<SliceView> {
    s.map_values(|x: ExecutionSlice| x@)
}

/// Turnaround figures of one process; the normalized turnaround time is
/// `turnaround_time / service_time`.
#[derive(Debug, Clone, Copy, PartialEq, Eq)]
pub struct ProcessMetrics {
    pub finish_time: i64,
    pub turnaround_time: i64,
    pub service_time: i64,
}

/// A uniprocessor schedule: the timeline, the metrics of every process
/// (ordered by process name) and the time at which the last slice ends.
#[derive(Debug, Clone)]
pub struct ScheduleResult {
    pub algorithm: String,
    pub slices: Vec<ExecutionSlice>,
    pub metrics: Vec<(String, ProcessMetrics)>,
    pub total_completion_time: i64,
}

/// The mathematical value of a schedule.
pub struct ScheduleView {
    pub algorithm: Seq<char>,
    pub slices: Seq<SliceView>,
    pub metrics: Seq<(Seq<char>, ProcessMetrics)>,
    pub total_completion_time: int,
}

/// The mathematical value of an entry of a metrics table.
pub open spec fn entry_view(e: (String, ProcessMetrics)) -> (Seq<char>, ProcessMetrics) {
    (e.0@, e.1)
}

impl View for ScheduleResult {
    type V = ScheduleView;

    open spec fn view(&self) -> ScheduleView {
        ScheduleView {
            algorithm: self.algorithm@,
            slices: slices_view(self.slices@),
            metrics: self.metrics@.map_values(|e: (String, ProcessMetrics)| entry_view(e)),
            total_completion_time: self.total_completion_time as int,
        }
    }
}

/// Adds `[start, end)` of `name` to the timeline: nothing when the stretch
/// is empty, an extension of the last slice when it is the same process and
/// ends where this one starts, a new slice otherwise.
pub open spec fn append_slice_spec(s: Seq<SliceView>, name: Seq<char>, start: int, end: int) -> Seq<
    SliceView,
> {
    if start == end {
        s
    } else if s.len() > 0 && s.last().process == name && s.last().end == start {
        s.update(s.len() - 1, SliceView { process: name, start: s.last().start, end })
    } else {
        s.push(SliceView { process: name, start, end })
    }
}

/// Total time for which `name` runs in `s`.
pub open spec fn run_time(s: Seq<SliceView>, name: Seq<char>) -> int
    decreases s.len(),
{
    if s.len() == 0 {
        0
    } else {
        run_time(s.drop_last(), name) + if s.last().process == name {
            s.last().end - s.last().start
        } else {
            0
        }
    }
}

/// The end of the last slice of `name` in `s`.
pub open spec fn last_end(s: Seq<SliceView>, name: Seq<char>) -> Option<int>
    decreases s.len(),
{
    if s.len() == 0 {
        None
    } else if s.last().process == name {
        Some(s.last().end)
    } else {
        last_end(s.drop_last(), name)
    }
}

/// The latest end of a slice in `s`, or 0 for an empty timeline.
pub open spec fn max_end(s: Seq<SliceView>) -> int
    decreases s.len(),
{
    if s.len() == 0 {
        0
    } else {
        let m = max_end(s.drop_last());
        if s.last().end > m {
            s.last().end
        } else {
            m
        }
    }
}

/// Slices are non-empty, in order of time, and do not overlap.
pub open spec fn chronological(s: Seq<SliceView>) -> bool {
    &&& forall|k: int| 0 <= k < s.len() ==> (#[trigger] s[k]).start < s[k].end
    &&& forall|k: int, l: int| 0 <= k < l < s.len() ==> (#[trigger] s[k]).end <= (#[trigger] s[l]).start
}

/// Every slice of `s` belongs to a process of `ps` that has arrived by its start.
pub open spec fn slices_after_arrival(ps: Seq<Process>, s: Seq<SliceView>) -> bool {
    forall|k: int|
        0 <= k < s.len() ==> exists|i: int|
            0 <= i < ps.len() && (#[trigger] ps[i]).name@ == (#[trigger] s[k]).process
                && ps[i].arrival <= s[k].start
}

/// The timeline `s` runs one process at a time, never a process before it
/// arrives, and every process of `ps` for exactly its service time.
pub open spec fn serves_exactly(ps: Seq<Process>, s: Seq<SliceView>) -> bool {
    &&& chronological(s)
    &&& slices_after_arrival(ps, s)
    &&& forall|i: int| 0 <= i < ps.len() ==> run_time(s, (#[trigger] ps[i]).name@) == ps[i].service
}

/// No two slices of `s` belong to the same process: with `serves_exactly`,
/// every process runs to completion in one piece.
pub open spec fn runs_in_one_piece(s: Seq<SliceView>) -> bool {
    forall|k1: int, k2: int|
        0 <= k1 < k2 < s.len() ==> (#[trigger] s[k1]).process != (#[trigger] s[k2]).process
}

/// A slice of `name` in a timeline of non-empty slices gives `name` some
/// run time.
pub proof fn lemma_run_time_positive(s: Seq<SliceView>, name: Seq<char>, k: int)
    requires
        forall|j: int| 0 <= j < s.len() ==> (#[trigger] s[j]).start < s[j].end,
        0 <= k < s.len(),
        s[k].process == name,
    ensures
        run_time(s, name) >= s[k].end - s[k].start,
    decreases s.len(),
{
    lemma_run_time_nonneg(s.drop_last(), name);
    if k < s.len() - 1 {
        assert forall|j: int| 0 <= j < s.drop_last().len() implies (#[trigger] s.drop_last()[j]).start
            < s.drop_last()[j].end by {
            assert(s.drop_last()[j] == s[j]);
        }
        assert(s.drop_last()[k] == s[k]);
        lemma_run_time_positive(s.drop_last(), name, k);
        assert(s.last() == s[s.len() - 1]);
    }
}

proof fn lemma_run_time_nonneg(s: Seq<SliceView>, name: Seq<char>)
    requires
        forall|j: int| 0 <= j < s.len() ==> (#[trigger] s[j]).start < s[j].end,
    ensures
        run_time(s, name) >= 0,
    decreases s.len(),
{
    if s.len() > 0 {
        assert forall|j: int| 0 <= j < s.drop_last().len() implies (#[trigger] s.drop_last()[j]).start
            < s.drop_last()[j].end by {
            assert(s.drop_last()[j] == s[j]);
        }
        lemma_run_time_nonneg(s.drop_last(), name);
        assert(s.last() == s[s.len() - 1]);
    }
}

/// In a timeline of non-overlapping slices in order of time, where every
/// slice of `name` starts at `a` or later, `name` runs for no longer than
/// from `a` to the end of its last slice.
proof fn lemma_run_time_within(s: Seq<SliceView>, name: Seq<char>, a: int)
    requires
        chronological(s),
        forall|k: int| 0 <= k < s.len() && (#[trigger] s[k]).process == name ==> s[k].start >= a,
    ensures
        match last_end(s, name) {
            Some(e) => run_time(s, name) <= e - a && exists|k: int| 0 <= k < s.len() && (#[trigger] s[k]).end == e,
            None => run_time(s, name) == 0,
        },
    decreases s.len(),
{
    if s.len() > 0 {
        let t = s.drop_last();
        let l = s.len() - 1;
        assert(s.last() == s[l]);
        assert(chronological(t)) by {
            assert forall|k: int| 0 <= k < t.len() implies (#[trigger] t[k]).start < t[k].end by {
                assert(t[k] == s[k]);
            }
            assert forall|k: int, j: int| 0 <= k < j < t.len() implies (#[trigger] t[k]).end <= (#[trigger] t[j]).start by {
                assert(t[k] == s[k] && t[j] == s[j]);
            }
        }
        assert forall|k: int| 0 <= k < t.len() && (#[trigger] t[k]).process == name implies t[k].start >= a by {
            assert(t[k] == s[k]);
        }
        lemma_run_time_within(t, name, a);
        if s[l].process == name {
            match last_end(t, name) {
                Some(e) => {
                    let k = choose|k: int| 0 <= k < t.len() && (#[trigger] t[k]).end == e;
                    assert(t[k] == s[k]);
                    assert(s[k].end <= s[l].start);
                },
                None => {},
            }
            assert(last_end(s, name) == Some(s[l].end));
        } else {
            match last_end(t, name) {
                Some(e) => {
                    let k = choose|k: int| 0 <= k < t.len() && (#[trigger] t[k]).end == e;
                    assert(t[k] == s[k]);
                },
                None => {},
            }
        }
    }
}

/// Law: in every timeline that serves each process exactly, a process
/// finishes no earlier than its arrival plus its service time, so its
/// turnaround time is at least its service time.
pub proof fn lemma_turnaround_at_least_service(ps: Seq<Process>, s: Seq<SliceView>)
    requires
        valid_processes(ps),
        serves_exactly(ps, s),
    ensures
        forall|i: int|
            0 <= i < ps.len() ==> finish_time_of(s, #[trigger] ps[i]) - ps[i].arrival >= ps[i].service,
{
    assert forall|i: int| 0 <= i < ps.len() implies finish_time_of(s, #[trigger] ps[i]) - ps[i].arrival
        >= ps[i].service by {
        let name = ps[i].name@;
        assert forall|k: int| 0 <= k < s.len() && (#[trigger] s[k]).process == name implies s[k].start
            >= ps[i].arrival by {
            let x = choose|x: int|
                0 <= x < ps.len() && (#[trigger] ps[x]).name@ == s[k].process && ps[x].arrival <= s[k].start;
            if x != i {
                assert(ps[x].name@ != ps[i].name@);
            }
        }
        lemma_run_time_within(s, name, ps[i].arrival as int);
    }
}

/// Every row of `t` shows a turnaround time of at least the service time.
pub open spec fn turnaround_covers_service(t: Seq<(String, ProcessMetrics)>) -> bool {
    forall|k: int| 0 <= k < t.len() ==> (#[trigger] t[k]).1.turnaround_time >= t[k].1.service_time
}

/// Law: every row of the metrics of a schedule that serves each process
/// exactly shows a turnaround time of at least the service time, that is a
/// normalized turnaround time of at least 1.
pub proof fn lemma_metrics_turnaround_at_least_service(r: ScheduleResult, label: Seq<char>, ps: Seq<Process>, s: Seq<SliceView>)
    requires
        valid_processes(ps),
        describes(r, label, ps, s),
        serves_exactly(ps, s),
    ensures
        turnaround_covers_service(r.metrics@),
{
    lemma_turnaround_at_least_service(ps, s);
    assert forall|k: int| 0 <= k < r.metrics@.len() implies (#[trigger] r.metrics@[k]).1.turnaround_time
        >= r.metrics@[k].1.service_time by {
        assert(metrics_entry(ps, finish_times(ps, s), r.metrics@[k]));
        let i = choose|i: int|
            0 <= i < ps.len() && (#[trigger] ps[i]).name@ == r.metrics@[k].0@ && metrics_match(
                finish_times(ps, s)[i],
                ps[i],
                r.metrics@[k].1,
            );
        assert(finish_times(ps, s)[i] == finish_time_of(s, ps[i]));
    }
}

/// The finish time of `p` in `s`: the end of its last slice, or its arrival
/// plus its service time when it has none.
pub open spec fn finish_time_of(s: Seq<SliceView>, p: Process) -> int {
    match last_end(s, p.name@) {
        Some(e) => e,
        None => p.arrival + p.service,
    }
}

/// `m` holds the metrics of `p` when it finishes at `finish`.
pub open spec fn metrics_match(finish: int, p: Process, m: ProcessMetrics) -> bool {
    &&& m.finish_time == finish
    &&& m.turnaround_time == finish - p.arrival
    &&& m.service_time == p.service
}

/// `e` holds the name and metrics of some process of `ps`, where process
/// `i` finishes at `finish[i]`.
pub open spec fn metrics_entry(ps: Seq<Process>, finish: Seq<int>, e: (String, ProcessMetrics)) -> bool {
    exists|i: int|
        0 <= i < ps.len() && (#[trigger] ps[i]).name@ == e.0@ && metrics_match(finish[i], ps[i], e.1)
}

/// Some entry of `t` is filed under `name`.
pub open spec fn listed(t: Seq<(String, ProcessMetrics)>, name: Seq<char>) -> bool {
    exists|k: int| 0 <= k < t.len() && (#[trigger] t[k]).0@ == name
}

/// `t` lists the metrics of every process of `ps` once, ordered by name.
pub open spec fn metrics_table(ps: Seq<Process>, finish: Seq<int>, t: Seq<(String, ProcessMetrics)>) -> bool {
    &&& t.len() == ps.len()
    &&& forall|i: int| 0 <= i < ps.len() ==> #[trigger] listed(t, ps[i].name@)
    &&& forall|k: int| 0 <= k < t.len() ==> metrics_entry(ps, finish, #[trigger] t[k])
    &&& forall|k: int, l: int|
        0 <= k < l < t.len() ==> chars_less((#[trigger] t[k]).0@, (#[trigger] t[l]).0@)
}

/// The finish time of every process of `ps` in the timeline `s`.
pub open spec fn finish_times(ps: Seq<Process>, s: Seq<SliceView>) -> Seq<int> {
    Seq::new(ps.len(), |i: int| finish_time_of(s, ps[i]))
}

/// `r` is the schedule named `label` of `ps` with the timeline `s`.
pub open spec fn describes(r: ScheduleResult, label: Seq<char>, ps: Seq<Process>, s: Seq<SliceView>) -> bool {
    &&& r.algorithm@ == label
    &&& slices_view(r.slices@) == s
    &&& metrics_table(ps, finish_times(ps, s), r.metrics@)
    &&& r.total_completion_time == max_end(s)
}

proof fn lemma_metrics_table_unique_at(
    a: Seq<Process>,
    b: Seq<Process>,
    fin: Seq<int>,
    t1: Seq<(String, ProcessMetrics)>,
    t2: Seq<(String, ProcessMetrics)>,
    k: int,
)
    requires
        same_table(a, b),
        distinct_names(a),
        metrics_table(a, fin, t1),
        metrics_table(b, fin, t2),
        0 <= k < t1.len(),
    ensures
        entry_view(t1[k]) == entry_view(t2[k]),
    decreases k,
{
    assert forall|m: int| 0 <= m < k implies entry_view(#[trigger] t1[m]) == entry_view(t2[m]) by {
        lemma_metrics_table_unique_at(a, b, fin, t1, t2, m);
    }
    assert(metrics_entry(a, fin, t1[k]));
    let i = choose|i: int|
        0 <= i < a.len() && (#[trigger] a[i]).name@ == t1[k].0@ && metrics_match(fin[i], a[i], t1[k].1);
    assert(metrics_entry(b, fin, t2[k]));
    let j = choose|j: int|
        0 <= j < b.len() && (#[trigger] b[j]).name@ == t2[k].0@ && metrics_match(fin[j], b[j], t2[k].1);
    let x = t1[k].0@;
    let y = t2[k].0@;
    assert(listed(t2, b[i].name@));
    let k2 = choose|k2: int| 0 <= k2 < t2.len() && (#[trigger] t2[k2]).0@ == b[i].name@;
    assert(listed(t1, a[j].name@));
    let k1 = choose|k1: int| 0 <= k1 < t1.len() && (#[trigger] t1[k1]).0@ == a[j].name@;
    assert(a[i].name@ == b[i].name@ && a[j].name@ == b[j].name@);
    lemma_chars_less_irreflexive(x);
    lemma_chars_less_irreflexive(y);
    if k2 < k {
        assert(entry_view(t1[k2]) == entry_view(t2[k2]));
        assert(chars_less(t1[k2].0@, t1[k].0@));
    }
    if k1 < k {
        assert(entry_view(t1[k1]) == entry_view(t2[k1]));
        assert(chars_less(t2[k1].0@, t2[k].0@));
    }
    if k1 > k && k2 > k {
        assert(chars_less(t1[k].0@, t1[k1].0@));
        assert(chars_less(t2[k].0@, t2[k2].0@));
        lemma_chars_less_transitive(x, y, x);
    }
    assert(x == y);
    assert(i == j);
}

/// Two schedules that describe the same timeline of the same table, up to
/// the values that the processes' names are held in, are the same schedule.
pub proof fn lemma_describes_same_table(
    r1: ScheduleResult,
    r2: ScheduleResult,
    label: Seq<char>,
    a: Seq<Process>,
    b: Seq<Process>,
    s: Seq<SliceView>,
)
    requires
        describes(r1, label, a, s),
        describes(r2, label, b, s),
        same_table(a, b),
        distinct_names(a),
    ensures
        r1@ == r2@,
{
    assert(finish_times(a, s) =~= finish_times(b, s)) by {
        assert forall|i: int| 0 <= i < a.len() implies finish_times(a, s)[i] == finish_times(b, s)[i] by {
            assert(a[i].name@ == b[i].name@);
        }
    }
    let t1 = r1.metrics@;
    let t2 = r2.metrics@;
    assert forall|k: int| 0 <= k < t1.len() implies entry_view(#[trigger] t1[k]) == entry_view(t2[k]) by {
        lemma_metrics_table_unique_at(a, b, finish_times(a, s), t1, t2, k);
    }
    assert(r1@.metrics =~= r2@.metrics);
}

/// Every slice of `s` lies within `[0, bound]`.
pub open spec fn slices_within(s: Seq<SliceView>, bound: int) -> bool {
    forall|k: int| 0 <= k < s.len() ==> 0 <= (#[trigger] s[k]).start <= s[k].end <= bound
}

/// Every slice of `s` ends within `[-bound, bound]`.
pub open spec fn ends_within(s: Seq<SliceView>, bound: int) -> bool {
    forall|k: int| 0 <= k < s.len() ==> -bound <= #[trigger] s[k].end <= bound
}

/// Time bound of every schedule of valid processes.
pub open spec fn time_bound() -> int {
    4_611_686_018_427_387_904
}

/// Appending `[start, end)` of `name` adds its length to the run time of
/// `name` and leaves the run time of every other process unchanged.
pub proof fn lemma_append_run_time(s: Seq<SliceView>, name: Seq<char>, start: int, end: int, other: Seq<char>)
    ensures
        run_time(append_slice_spec(s, name, start, end), other) == run_time(s, other) + if other
            == name {
            end - start
        } else {
            0
        },
{
    let t = append_slice_spec(s, name, start, end);
    if start == end {
    } else if s.len() > 0 && s.last().process == name && s.last().end == start {
        assert(t.drop_last() =~= s.drop_last());
    } else {
        assert(t.drop_last() =~= s);
    }
}

/// Appending a non-empty stretch that starts no earlier than every slice
/// ends keeps the timeline chronological.
pub proof fn lemma_append_chronological(s: Seq<SliceView>, name: Seq<char>, start: int, end: int)
    requires
        chronological(s),
        slices_within(s, start),
        0 <= start < end,
    ensures
        chronological(append_slice_spec(s, name, start, end)),
        slices_within(append_slice_spec(s, name, start, end), end),
{
    let t = append_slice_spec(s, name, start, end);
    assert forall|k: int| 0 <= k < t.len() implies 0 <= (#[trigger] t[k]).start <= t[k].end <= end by {
        if k < s.len() {
            assert(0 <= s[k].start);
            assert(s[k].end <= start);
            if k == s.len() - 1 {
                assert(s.last() == s[k]);
            }
            if t[k] != s[k] {
                assert(k == s.len() - 1);
            }
        }
    }
    assert forall|k: int| 0 <= k < t.len() implies (#[trigger] t[k]).start < t[k].end by {
        if k == s.len() - 1 {
            assert(s.last() == s[k]);
        }
    }
    assert forall|k: int, l: int| 0 <= k < l < t.len() implies (#[trigger] t[k]).end <= (
    #[trigger] t[l]).start by {
        if l < s.len() {
            assert(t[k] == s[k]);
            if l == s.len() - 1 {
                assert(s.last() == s[l]);
                assert(s[k].end <= s[l].start);
            }
        } else {
            assert(t[k] == s[k]);
            assert(s[k].end <= start);
        }
    }
}

/// Appending a stretch of a process that has arrived by its start keeps
/// every slice after the arrival of its process.
pub proof fn lemma_append_after_arrival(ps: Seq<Process>, s: Seq<SliceView>, i: int, start: int, end: int)
    requires
        slices_after_arrival(ps, s),
        0 <= i < ps.len(),
        ps[i].arrival <= start,
    ensures
        slices_after_arrival(ps, append_slice_spec(s, ps[i].name@, start, end)),
{
    let t = append_slice_spec(s, ps[i].name@, start, end);
    assert forall|k: int| 0 <= k < t.len() implies exists|x: int|
        0 <= x < ps.len() && (#[trigger] ps[x]).name@ == (#[trigger] t[k]).process && ps[x].arrival
            <= t[k].start by {
        if k < s.len() && t[k] == s[k] {
        } else if k < s.len() {
            assert(s.last() == s[k]);
            assert(t[k].start == s[k].start && t[k].process == s[k].process);
        } else {
            assert(ps[i].name@ == t[k].process);
        }
    }
}

/// Adds `[start, end)` of `process_name` to the timeline as
/// `append_slice_spec` says.
pub(crate) fn append_slice(slices: &mut Vec<ExecutionSlice>, process_name: &str, start: i64, end: i64)
    ensures
        slices_view(final(slices)@) == append_slice_spec(
            slices_view(old(slices)@),
            process_name@,
            start as int,
            end as int,
        ),
{
    if start == end {
        return ;
    }
    let n = slices.len();
    if n > 0 {
        let same = str_eq(slices[n - 1].process.as_str(), process_name);
        if same && slices[n - 1].end == start {
            let mut last = slices.pop().unwrap();
            last.end = end;
            slices.push(last);
            assert(slices_view(slices@) =~= append_slice_spec(
                slices_view(old(slices)@),
                process_name@,
                start as int,
                end as int,
            ));
            return ;
        }
    }
    slices.push(ExecutionSlice { process: process_name.to_owned(), start, end });
    assert(slices_view(slices@) =~= append_slice_spec(
        slices_view(old(slices)@),
        process_name@,
        start as int,
        end as int,
    ));
}

proof fn lemma_last_end_bounds(s: Seq<SliceView>, name: Seq<char>, bound: int)
    requires
        ends_within(s, bound),
    ensures
        last_end(s, name) matches Some(e) ==> -bound <= e <= bound,
    decreases s.len(),
{
    if s.len() > 0 {
        assert(s.last() == s[s.len() - 1]);
        assert(ends_within(s.drop_last(), bound)) by {
            assert forall|k: int| 0 <= k < s.len() - 1 implies -bound <= #[trigger] s.drop_last()[k].end
                <= bound by {
                assert(s.drop_last()[k] == s[k]);
            }
        }
        lemma_last_end_bounds(s.drop_last(), name, bound);
    }
}

/// The latest end of a slice in `slices`, or 0 for none.
pub(crate) fn compute_max_end(slices: &Vec<ExecutionSlice>) -> (r: i64)
    ensures
        r == max_end(slices_view(slices@)),
{
    let ghost sv = slices_view(slices@);
    let mut m: i64 = 0;
    let mut k: usize = 0;
    while k < slices.len()
        invariant
            0 <= k <= slices@.len(),
            sv == slices_view(slices@),
            m == max_end(sv.subrange(0, k as int)),
        decreases slices@.len() - k,
    {
        assert(sv.subrange(0, k + 1).drop_last() =~= sv.subrange(0, k as int));
        if slices[k].end > m {
            m = slices[k].end;
        }
        k = k + 1;
    }
    assert(sv.subrange(0, k as int) =~= sv);
    m
}

/// The end of the last slice of `name`, if any.
fn find_last_end(slices: &Vec<ExecutionSlice>, name: &str) -> (r: Option<i64>)
    ensures
        match last_end(slices_view(slices@), name@) {
            Some(e) => r == Some(e as i64) && e == r.unwrap() as int,
            None => r is None,
        },
{
    let ghost sv = slices_view(slices@);
    let mut found: Option<i64> = None;
    let mut k: usize = 0;
    while k < slices.len()
        invariant
            0 <= k <= slices@.len(),
            sv == slices_view(slices@),
            match last_end(sv.subrange(0, k as int), name@) {
                Some(e) => found == Some(e as i64) && e == found.unwrap() as int,
                None => found is None,
            },
        decreases slices@.len() - k,
    {
        assert(sv.subrange(0, k + 1).drop_last() =~= sv.subrange(0, k as int));
        if str_eq(slices[k].process.as_str(), name) {
            found = Some(slices[k].end);
        }
        k = k + 1;
    }
    assert(sv.subrange(0, k as int) =~= sv);
    found
}

/// The metrics of every process of `processes`, where process `i` finishes
/// at `finishes[i]`, ordered by name.
pub(crate) fn sorted_metrics(processes: &Vec<Process>, finishes: &Vec<i64>) -> (table: Vec<(String, ProcessMetrics)>)
    requires
        within_limits(processes@),
        distinct_names(processes@),
        finishes@.len() == processes@.len(),
        forall|i: int|
            0 <= i < finishes@.len() ==> -time_bound() <= #[trigger] finishes@[i] <= time_bound(),
    ensures
        metrics_table(processes@, finishes@.map_values(|f: i64| f as int), table@),
{
    let ghost ps = processes@;
    let ghost fin = finishes@.map_values(|f: i64| f as int);
    let mut table: Vec<(String, ProcessMetrics)> = Vec::new();
    let n = processes.len();
    let mut i: usize = 0;
    while i < n
        invariant
            n == ps.len(),
            ps == processes@,
            fin == finishes@.map_values(|f: i64| f as int),
            finishes@.len() == n,
            forall|j: int|
                0 <= j < finishes@.len() ==> -time_bound() <= #[trigger] finishes@[j] <= time_bound(),
            within_limits(ps),
            distinct_names(ps),
            0 <= i <= n,
            table@.len() == i,
            forall|k: int| 0 <= k < table@.len() ==> metrics_entry(ps, fin, #[trigger] table@[k]),
            forall|k: int|
                0 <= k < table@.len() ==> exists|j: int|
                    0 <= j < i && (#[trigger] ps[j]).name@ == (#[trigger] table@[k]).0@,
            forall|j: int| 0 <= j < i ==> #[trigger] listed(table@, ps[j].name@),
            forall|k: int, l: int|
                0 <= k < l < table@.len() ==> chars_less(
                    (#[trigger] table@[k]).0@,
                    (#[trigger] table@[l]).0@,
                ),
        decreases n - i,
    {
        let p = &processes[i];
        let finish = finishes[i];
        proof {
            assert(-MAX_TICKS <= p.arrival <= MAX_TICKS);
            assert(fin[i as int] == finish);
        }
        let m = ProcessMetrics {
            finish_time: finish,
            turnaround_time: finish - p.arrival,
            service_time: p.service,
        };
        let mut pos: usize = 0;
        while pos < table.len() && !str_less(p.name.as_str(), table[pos].0.as_str())
            invariant
                0 <= pos <= table@.len(),
                forall|k: int| 0 <= k < pos ==> !chars_less(p.name@, (#[trigger] table@[k]).0@),
            decreases table@.len() - pos,
        {
            pos = pos + 1;
        }
        let ghost old_table = table@;
        proof {
            assert forall|k: int| 0 <= k < old_table.len() implies (#[trigger] old_table[k]).0@
                != p.name@ by {
                let j = choose|j: int| 0 <= j < i && (#[trigger] ps[j]).name@ == old_table[k].0@;
                assert(ps[j].name@ != ps[i as int].name@);
            }
        }
        table.insert(pos, (p.name.clone(), m));
        proof {
            let t = table@;
            assert(t[pos as int].0@ == p.name@);
            assert forall|k: int| 0 <= k < t.len() implies metrics_entry(ps, fin, #[trigger] t[k])
                && exists|j: int| 0 <= j < i + 1 && (#[trigger] ps[j]).name@ == t[k].0@ by {
                if k < pos {
                    assert(t[k] == old_table[k]);
                } else if k == pos {
                    assert(ps[i as int].name@ == t[k].0@);
                } else {
                    assert(t[k] == old_table[k - 1]);
                }
            }
            assert forall|j: int| 0 <= j < i + 1 implies #[trigger] listed(t, ps[j].name@) by {
                if j == i {
                    assert(t[pos as int].0@ == ps[j].name@);
                } else {
                    assert(listed(old_table, ps[j].name@));
                    let k = choose|k: int|
                        0 <= k < old_table.len() && (#[trigger] old_table[k]).0@ == ps[j].name@;
                    if k < pos {
                        assert(t[k] == old_table[k]);
                    } else {
                        assert(t[k + 1] == old_table[k]);
                    }
                }
            }
            assert forall|k: int, l: int| 0 <= k < l < t.len() implies chars_less(
                (#[trigger] t[k]).0@,
                (#[trigger] t[l]).0@,
            ) by {
                if l < pos {
                    assert(t[k] == old_table[k] && t[l] == old_table[l]);
                } else if l == pos {
                    assert(t[k] == old_table[k]);
                    lemma_chars_less_total(old_table[k].0@, p.name@);
                } else if k > pos {
                    assert(t[k] == old_table[k - 1] && t[l] == old_table[l - 1]);
                } else if k == pos {
                    assert(t[l] == old_table[l - 1]);
                    assert(chars_less(p.name@, old_table[pos as int].0@));
                    if l - 1 > pos {
                        lemma_chars_less_transitive(
                            p.name@,
                            old_table[pos as int].0@,
                            old_table[l - 1].0@,
                        );
                    }
                } else {
                    assert(t[k] == old_table[k] && t[l] == old_table[l - 1]);
                    lemma_chars_less_total(old_table[k].0@, p.name@);
                    assert(chars_less(old_table[k].0@, p.name@));
                    assert(chars_less(p.name@, old_table[pos as int].0@));
                    lemma_chars_less_transitive(old_table[k].0@, p.name@, old_table[pos as int].0@);
                    if l - 1 > pos {
                        lemma_chars_less_transitive(
                            old_table[k].0@,
                            old_table[pos as int].0@,
                            old_table[l - 1].0@,
                        );
                    }
                }
            }
        }
        i = i + 1;
    }
    proof {
        assert(metrics_table(ps, fin, table@));
    }
    table
}

/// Assembles the schedule named `algorithm` from the timeline of `processes`.
pub(crate) fn build_result(algorithm: String, processes: &Vec<Process>, slices: Vec<ExecutionSlice>) -> (r:
    ScheduleResult)
    requires
        within_limits(processes@),
        distinct_names(processes@),
        ends_within(slices_view(slices@), time_bound()),
    ensures
        describes(r, algorithm@, processes@, slices_view(slices@)),
{
    let ghost ps = processes@;
    let ghost sv = slices_view(slices@);
    let n = processes.len();
    let mut finishes: Vec<i64> = Vec::new();
    let mut i: usize = 0;
    while i < n
        invariant
            n == ps.len(),
            ps == processes@,
            sv == slices_view(slices@),
            within_limits(ps),
            distinct_names(ps),
            ends_within(sv, time_bound()),
            0 <= i <= n,
            finishes@.len() == i,
            forall|j: int| 0 <= j < i ==> #[trigger] finishes@[j] == finish_time_of(sv, ps[j]),
            forall|j: int| 0 <= j < i ==> -time_bound() <= #[trigger] finishes@[j] <= time_bound(),
        decreases n - i,
    {
        let p = &processes[i];
        proof {
            lemma_last_end_bounds(sv, p.name@, time_bound());
            assert(-MAX_TICKS <= p.arrival <= MAX_TICKS);
            assert(-MAX_TICKS <= p.service <= MAX_TICKS);
        }
        let finish = match find_last_end(&slices, p.name.as_str()) {
            Some(e) => e,
            None => p.arrival + p.service,
        };
        finishes.push(finish);
        i = i + 1;
    }
    let table = sorted_metrics(processes, &finishes);
    proof {
        assert(finishes@.map_values(|f: i64| f as int) =~= finish_times(ps, sv));
    }
    let total = compute_max_end(&slices);
    ScheduleResult { algorithm, slices, metrics: table, total_completion_time: total }
}

} // verus!
