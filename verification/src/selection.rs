//! Running several uniprocessor algorithms on one table of processes.
use vstd::prelude::*;
use vstd::string::*;
use crate::names::{to_uppercase, uppercase_of, str_eq, str_starts_with};
use crate::process::{
    Process, valid_processes, within_limits, validation_error, normalized, validate_processes,
    TICKS_PER_UNIT, same_table, lemma_normalized_same_table,
};
use crate::timeline::{
    ScheduleResult, SliceView, describes, build_result, serves_exactly, slices_view,
    turnaround_covers_service, lemma_metrics_turnaround_at_least_service, lemma_describes_same_table,
};
use crate::fcfs::{fcfs_timeline, run_fcfs, lemma_fcfs_same_table};
use crate::priority::{Priority, priority_timeline, schedule_by_priority, lemma_priority_same_table};
use crate::round_robin::{
    rr_label, rr_timeline, run_round_robin, quantum_digit, msg_bad_quantum, lemma_rr_same_table,
};
use crate::srt::{srt_timeline, run_srt, lemma_srt_same_table};

verus! {

/// Schedules keyed by their labels, each label at most once.
#[derive(Debug)]
pub struct ScheduleResults {
    pub entries: Vec<ScheduleResult>,
}

impl ScheduleResults {
    /// The schedule labelled `label`, if there is one.
    pub fn get(&self, label: &str) -> (r: Option<&ScheduleResult>)
        ensures
            r is Some <==> exists|k: int|
                0 <= k < self.entries@.len() && (#[trigger] self.entries@[k]).algorithm@ == label@,
            r matches Some(e) ==> exists|k: int|
                0 <= k < self.entries@.len() && self.entries@[k] == *e && e.algorithm@ == label@,
    {
        let mut k: usize = 0;
        while k < self.entries.len()
            invariant
                0 <= k <= self.entries@.len(),
                forall|j: int| 0 <= j < k ==> (#[trigger] self.entries@[j]).algorithm@ != label@,
            decreases self.entries@.len() - k,
        {
            if str_eq(self.entries[k].algorithm.as_str(), label) {
                return Some(&self.entries[k]);
            }
            k = k + 1;
        }
        None
    }

    /// The number of schedules.
    pub fn len(&self) -> (r: usize)
        ensures
            r == self.entries@.len(),
    {
        self.entries.len()
    }
}

/// The algorithm names that `run_selected` knows, in upper case.
pub open spec fn known_algorithm(upper: Seq<char>) -> bool {
    upper == "FCFS"@ || upper == "RR"@ || upper == "SPN"@ || upper == "SRT"@ || upper == "HRRN"@
}

/// The label under which the algorithm named `upper` files its schedule.
pub open spec fn label_for(upper: Seq<char>, q: u32) -> Seq<char> {
    if upper == "RR"@ {
        rr_label(q)
    } else {
        upper
    }
}

/// The complaint about an algorithm name that is not known.
pub open spec fn msg_unknown_algorithm(name: Seq<char>) -> Seq<char> {
    "Unknown scheduling algorithm: "@ + name
}

/// The complaint about the first requested algorithm, from position `k`
/// on, that cannot run.
pub open spec fn first_bad_algorithm(algos: Seq<Seq<char>>, q: u32, k: int) -> Option<Seq<char>>
    decreases algos.len() - k,
{
    if k < 0 || k >= algos.len() {
        None
    } else {
        let upper = uppercase_of(algos[k]);
        if !known_algorithm(upper) {
            Some(msg_unknown_algorithm(algos[k]))
        } else if upper == "RR"@ && !(1 <= q <= 6) {
            Some(msg_bad_quantum())
        } else {
            first_bad_algorithm(algos, q, k + 1)
        }
    }
}

/// The timeline that the schedule labelled `label` has.
pub open spec fn timeline_for(label: Seq<char>, ps: Seq<Process>, q: u32) -> Seq<SliceView> {
    if label == "FCFS"@ {
        fcfs_timeline(ps)
    } else if label == "SPN"@ {
        priority_timeline(ps, Priority::ShortestNext)
    } else if label == "SRT"@ {
        srt_timeline(ps)
    } else if label == "HRRN"@ {
        priority_timeline(ps, Priority::HighestRatio)
    } else {
        rr_timeline(ps, q * TICKS_PER_UNIT)
    }
}

/// The requested algorithm names as character sequences.
pub open spec fn names_of(algos: Seq<String>) -> Seq<Seq<char>> {
    algos.map_values(|a: String| a@)
}

/// Some schedule in `entries` is labelled `label`.
pub open spec fn has_label(entries: Seq<ScheduleResult>, label: Seq<char>) -> bool {
    exists|k: int| 0 <= k < entries.len() && (#[trigger] entries[k]).algorithm@ == label
}

/// Some algorithm in `algos` files its schedule under `label`.
pub open spec fn requested(algos: Seq<Seq<char>>, q: u32, label: Seq<char>) -> bool {
    exists|a: int| 0 <= a < algos.len() && label_for(uppercase_of(#[trigger] algos[a]), q) == label
}

/// `entries` holds, once each, a schedule for the label of every algorithm
/// in `algos`, and nothing else.
pub open spec fn results_for(entries: Seq<ScheduleResult>, algos: Seq<Seq<char>>, q: u32, ps: Seq<Process>) -> bool {
    &&& forall|k: int, l: int|
        0 <= k < l < entries.len() ==> (#[trigger] entries[k]).algorithm@ != (
        #[trigger] entries[l]).algorithm@
    &&& forall|a: int|
        0 <= a < algos.len() ==> has_label(entries, label_for(uppercase_of(#[trigger] algos[a]), q))
    &&& forall|k: int|
        0 <= k < entries.len() ==> requested(algos, q, (#[trigger] entries[k]).algorithm@)
    &&& forall|k: int|
        0 <= k < entries.len() ==> describes(
            #[trigger] entries[k],
            entries[k].algorithm@,
            ps,
            timeline_for(entries[k].algorithm@, ps, q),
        ) && serves_exactly(ps, slices_view(entries[k].slices@)) && turnaround_covers_service(
            entries[k].metrics@,
        )
}

/// Runs the algorithm named `upper` on validated processes.
fn run_one(checked: &Vec<Process>, key: String, name: &String, q: u32) -> (r: Result<ScheduleResult, String>)
    requires
        valid_processes(checked@),
    ensures
        r is Ok <==> known_algorithm(key@) && !(key@ == "RR"@ && !(1 <= q <= 6)),
        r matches Err(m) ==> m@ == if !known_algorithm(key@) {
            msg_unknown_algorithm(name@)
        } else {
            msg_bad_quantum()
        },
        r matches Ok(res) ==> res.algorithm@ == label_for(key@, q) && describes(
            res,
            res.algorithm@,
            checked@,
            timeline_for(res.algorithm@, checked@, q),
        ) && serves_exactly(checked@, slices_view(res.slices@)) && turnaround_covers_service(res.metrics@),
{
    proof {
        reveal_strlit("FCFS");
        reveal_strlit("SPN");
        reveal_strlit("SRT");
        reveal_strlit("HRRN");
        reveal_strlit("RR");
        reveal_strlit("RR q=");
    }
    let ghost ps = checked@;
    if str_eq(key.as_str(), "FCFS") {
        let res = build_result(key, checked, run_fcfs(checked));
        assert(res.algorithm@ == "FCFS"@);
        assert(timeline_for(res.algorithm@, ps, q) == fcfs_timeline(ps));
        proof {
            lemma_metrics_turnaround_at_least_service(res, res.algorithm@, ps, slices_view(res.slices@));
        }
        Ok(res)
    } else if str_eq(key.as_str(), "RR") {
        if !(1 <= q && q <= 6) {
            return Err(String::from_str("Round Robin quantum must be between 1 and 6."));
        }
        let slices = run_round_robin(checked, q as i64 * TICKS_PER_UNIT);
        let mut label = String::from_str("RR q=");
        label.append(quantum_digit(q));
        let res = build_result(label, checked, slices);
        assert(res.algorithm@ == rr_label(q));
        assert(res.algorithm@.len() >= 5);
        assert(timeline_for(res.algorithm@, ps, q) == rr_timeline(ps, q * TICKS_PER_UNIT));
        proof {
            lemma_metrics_turnaround_at_least_service(res, res.algorithm@, ps, slices_view(res.slices@));
        }
        Ok(res)
    } else if str_eq(key.as_str(), "SPN") {
        let res = build_result(key, checked, schedule_by_priority(checked, Priority::ShortestNext));
        assert(res.algorithm@ == "SPN"@);
        assert(timeline_for(res.algorithm@, ps, q) == priority_timeline(ps, Priority::ShortestNext));
        proof {
            lemma_metrics_turnaround_at_least_service(res, res.algorithm@, ps, slices_view(res.slices@));
        }
        Ok(res)
    } else if str_eq(key.as_str(), "SRT") {
        let res = build_result(key, checked, run_srt(checked));
        assert(res.algorithm@ == "SRT"@);
        assert(timeline_for(res.algorithm@, ps, q) == srt_timeline(ps));
        proof {
            lemma_metrics_turnaround_at_least_service(res, res.algorithm@, ps, slices_view(res.slices@));
        }
        Ok(res)
    } else if str_eq(key.as_str(), "HRRN") {
        let res = build_result(key, checked, schedule_by_priority(checked, Priority::HighestRatio));
        assert(res.algorithm@ == "HRRN"@);
        assert(timeline_for(res.algorithm@, ps, q) == priority_timeline(ps, Priority::HighestRatio));
        proof {
            lemma_metrics_turnaround_at_least_service(res, res.algorithm@, ps, slices_view(res.slices@));
        }
        Ok(res)
    } else {
        let mut msg = String::from_str("Unknown scheduling algorithm: ");
        msg.append(name.as_str());
        Err(msg)
    }
}

/// `new` is `old` with `result` filed at position `k`: in place of the
/// schedule with the same label there, or at the end when there is none.
pub open spec fn filed_at(old_entries: Seq<ScheduleResult>, new_entries: Seq<ScheduleResult>, result: ScheduleResult, k: int) -> bool {
    &&& 0 <= k <= old_entries.len()
    &&& new_entries == if k < old_entries.len() {
        old_entries.update(k, result)
    } else {
        old_entries.push(result)
    }
    &&& forall|j: int| 0 <= j < k ==> (#[trigger] old_entries[j]).algorithm@ != result.algorithm@
    &&& k < old_entries.len() ==> old_entries[k].algorithm@ == result.algorithm@
}

/// Files `result` under its label: in place of the schedule with the same
/// label, or at the end.
fn file_result(entries: &mut Vec<ScheduleResult>, result: ScheduleResult)
    ensures
        exists|k: int| filed_at(old(entries)@, final(entries)@, result, k),
{
    let ghost old_entries = entries@;
    let ghost res = result;
    let mut k: usize = 0;
    while k < entries.len() && !str_eq(entries[k].algorithm.as_str(), result.algorithm.as_str())
        invariant
            0 <= k <= entries@.len(),
            entries@ == old(entries)@,
            forall|j: int| 0 <= j < k ==> (#[trigger] entries@[j]).algorithm@ != result.algorithm@,
        decreases entries@.len() - k,
    {
        k = k + 1;
    }
    if k < entries.len() {
        entries.set(k, result);
    } else {
        entries.push(result);
    }
    assert(filed_at(old_entries, entries@, res, k as int));
}

#[verifier::rlimit(40)]
proof fn lemma_file_result(
    old_entries: Seq<ScheduleResult>,
    entries: Seq<ScheduleResult>,
    result: ScheduleResult,
    k: int,
    algos: Seq<Seq<char>>,
    i: int,
    q: u32,
    ps: Seq<Process>,
)
    requires
        0 <= i < algos.len(),
        results_for(old_entries, algos.subrange(0, i), q, ps),
        result.algorithm@ == label_for(uppercase_of(algos[i]), q),
        describes(result, result.algorithm@, ps, timeline_for(result.algorithm@, ps, q)),
        serves_exactly(ps, slices_view(result.slices@)),
        turnaround_covers_service(result.metrics@),
        filed_at(old_entries, entries, result, k),
    ensures
        results_for(entries, algos.subrange(0, i + 1), q, ps),
{
    let e = entries;
    let sub = algos.subrange(0, i + 1);
    let pre = algos.subrange(0, i);
    assert forall|x: int, y: int| 0 <= x < y < e.len() implies (#[trigger] e[x]).algorithm@ != (
    #[trigger] e[y]).algorithm@ by {
        if y < old_entries.len() {
            assert(x < old_entries.len());
            if x != k && y != k {
                assert(e[x] == old_entries[x] && e[y] == old_entries[y]);
            } else if x == k {
                assert(e[y] == old_entries[y]);
            } else {
                assert(e[x] == old_entries[x]);
            }
        } else {
            assert(e[x] == old_entries[x]);
        }
    }
    assert forall|a: int| 0 <= a < sub.len() implies has_label(e, label_for(uppercase_of(#[trigger] sub[a]), q)) by {
        if a < i {
            assert(sub[a] == pre[a]);
            assert(has_label(old_entries, label_for(uppercase_of(pre[a]), q)));
            let x = choose|x: int|
                0 <= x < old_entries.len() && (#[trigger] old_entries[x]).algorithm@ == label_for(
                    uppercase_of(pre[a]),
                    q,
                );
            if x == k {
                assert(e[x].algorithm@ == old_entries[x].algorithm@);
            } else {
                assert(e[x] == old_entries[x]);
            }
        } else {
            assert(e[k].algorithm@ == label_for(uppercase_of(sub[a]), q));
        }
    }
    assert forall|x: int| 0 <= x < e.len() implies requested(sub, q, (#[trigger] e[x]).algorithm@) by {
        if x == k {
            assert(sub[i] == algos[i]);
        } else {
            assert(e[x] == old_entries[x]);
            assert(requested(pre, q, old_entries[x].algorithm@));
            let a = choose|a: int|
                0 <= a < pre.len() && label_for(uppercase_of(#[trigger] pre[a]), q)
                    == old_entries[x].algorithm@;
            assert(sub[a] == pre[a]);
        }
    }
    assert forall|x: int| 0 <= x < e.len() implies describes(
        #[trigger] e[x],
        e[x].algorithm@,
        ps,
        timeline_for(e[x].algorithm@, ps, q),
    ) && serves_exactly(ps, slices_view(e[x].slices@)) && turnaround_covers_service(e[x].metrics@) by {
        if x != k {
            assert(e[x] == old_entries[x]);
        }
    }
}

/// Runs every algorithm named in `algorithms` (in any letter case) on the
/// processes; the Round Robin schedule is labelled with its quantum.
pub fn run_selected(processes: &[Process], algorithms: &[String], rr_quantum: u32) -> (r: Result<
    ScheduleResults,
    String,
>)
    requires
        within_limits(processes@),
    ensures
        r is Ok <==> validation_error(processes@) is None && first_bad_algorithm(
            names_of(algorithms@),
            rr_quantum,
            0,
        ) is None,
        r matches Err(m) ==> m@ == match validation_error(processes@) {
            Some(v) => v,
            None => first_bad_algorithm(names_of(algorithms@), rr_quantum, 0).unwrap(),
        },
        r matches Ok(res) ==> exists|checked: Seq<Process>|
            normalized(processes@, checked) && valid_processes(checked) && results_for(
                res.entries@,
                names_of(algorithms@),
                rr_quantum,
                checked,
            ),
{
    let checked = match validate_processes(processes) {
        Ok(v) => v,
        Err(e) => return Err(e),
    };
    let ghost ps = checked@;
    let ghost algos = names_of(algorithms@);
    assert(validation_error(processes@) is None);
    let mut entries: Vec<ScheduleResult> = Vec::new();
    proof {
        assert(results_for(entries@, algos.subrange(0, 0), rr_quantum, ps));
    }
    let mut i: usize = 0;
    while i < algorithms.len()
        invariant
            ps == checked@,
            valid_processes(ps),
            algos == names_of(algorithms@),
            algos.len() == algorithms@.len(),
            validation_error(processes@) is None,
            normalized(processes@, ps),
            0 <= i <= algorithms@.len(),
            first_bad_algorithm(algos, rr_quantum, 0) == first_bad_algorithm(algos, rr_quantum, i as int),
            results_for(entries@, algos.subrange(0, i as int), rr_quantum, ps),
        decreases algorithms@.len() - i,
    {
        let algo = &algorithms[i];
        assert(algos[i as int] == algo@);
        let key = to_uppercase(algo.as_str());
        let result = match run_one(&checked, key, algo, rr_quantum) {
            Ok(res) => res,
            Err(m) => {
                assert(first_bad_algorithm(algos, rr_quantum, i as int) == Some(m@));
                assert(m@ == first_bad_algorithm(algos, rr_quantum, 0).unwrap());
                return Err(m);
            },
        };
        let ghost old_entries = entries@;
        let ghost res = result;
        file_result(&mut entries, result);
        proof {
            let k = choose|k: int| filed_at(old_entries, entries@, res, k);
            lemma_file_result(old_entries, entries@, res, k, algos, i as int, rr_quantum, ps);
        }
        i = i + 1;
    }
    proof {
        assert(algos.subrange(0, i as int) =~= algos);
    }
    Ok(ScheduleResults { entries })
}

/// The timeline filed under `label` depends on the names and times of the
/// processes alone.
proof fn lemma_timeline_for_same_table(label: Seq<char>, a: Seq<Process>, b: Seq<Process>, q: u32)
    requires
        valid_processes(a),
        same_table(a, b),
        label == "FCFS"@ || label == "SPN"@ || label == "SRT"@ || label == "HRRN"@ || 1 <= q,
    ensures
        timeline_for(label, a, q) == timeline_for(label, b, q),
{
    if label == "FCFS"@ {
        lemma_fcfs_same_table(a, b);
    } else if label == "SPN"@ {
        lemma_priority_same_table(a, b, Priority::ShortestNext);
    } else if label == "SRT"@ {
        lemma_srt_same_table(a, b);
    } else if label == "HRRN"@ {
        lemma_priority_same_table(a, b, Priority::HighestRatio);
    } else {
        lemma_rr_same_table(a, b, q * TICKS_PER_UNIT);
    }
}

/// An entry of a `run_selected` result is the schedule that describes the
/// timeline filed under its label, for a normalization of the same table.
proof fn lemma_entry_matches(
    processes: Seq<Process>,
    algorithms: Seq<String>,
    q: u32,
    entries: Seq<ScheduleResult>,
    k: int,
    single: ScheduleResult,
    b: Seq<Process>,
)
    requires
        exists|checked: Seq<Process>|
            normalized(processes, checked) && valid_processes(checked) && results_for(
                entries,
                names_of(algorithms),
                q,
                checked,
            ),
        normalized(processes, b),
        0 <= k < entries.len(),
        entries[k].algorithm@ == "FCFS"@ || entries[k].algorithm@ == "SPN"@ || entries[k].algorithm@
            == "SRT"@ || entries[k].algorithm@ == "HRRN"@ || 1 <= q,
        describes(single, entries[k].algorithm@, b, timeline_for(entries[k].algorithm@, b, q)),
    ensures
        entries[k]@ == single@,
{
    let a = choose|checked: Seq<Process>|
        normalized(processes, checked) && valid_processes(checked) && results_for(
            entries,
            names_of(algorithms),
            q,
            checked,
        );
    let label = entries[k].algorithm@;
    lemma_normalized_same_table(processes, a, b);
    lemma_timeline_for_same_table(label, a, b, q);
    assert(describes(entries[k], label, a, timeline_for(label, a, q)));
    lemma_describes_same_table(entries[k], single, label, a, b, timeline_for(label, b, q));
}

/// `single` is a schedule that the scheduler of the algorithm filed under
/// `label` returns for `processes`: it describes that algorithm's timeline
/// of a normalization of the table.
pub open spec fn scheduled_alone(label: Seq<char>, processes: Seq<Process>, q: u32, single: ScheduleResult) -> bool {
    exists|checked: Seq<Process>|
        normalized(processes, checked) && valid_processes(checked) && describes(
            single,
            label,
            checked,
            timeline_for(label, checked, q),
        )
}

proof fn lemma_no_bad_algorithm(algos: Seq<Seq<char>>, q: u32, k: int, a: int)
    requires
        0 <= k <= a < algos.len(),
        first_bad_algorithm(algos, q, k) is None,
    ensures
        known_algorithm(uppercase_of(algos[a])),
        uppercase_of(algos[a]) == "RR"@ ==> 1 <= q <= 6,
    decreases a - k,
{
    if k < a {
        lemma_no_bad_algorithm(algos, q, k + 1, a);
    }
}

/// What `run_selected` returns when it succeeds: one schedule for the label
/// of every requested algorithm and for nothing else, each label once, and
/// each schedule the one that the algorithm's own scheduler gives for the
/// same processes.
pub proof fn lemma_run_selected_entries(
    processes: Seq<Process>,
    algorithms: Seq<String>,
    q: u32,
    entries: Seq<ScheduleResult>,
)
    requires
        first_bad_algorithm(names_of(algorithms), q, 0) is None,
        exists|checked: Seq<Process>|
            normalized(processes, checked) && valid_processes(checked) && results_for(
                entries,
                names_of(algorithms),
                q,
                checked,
            ),
    ensures
        forall|a: int|
            0 <= a < algorithms.len() ==> has_label(
                entries,
                label_for(uppercase_of(#[trigger] names_of(algorithms)[a]), q),
            ),
        forall|k: int|
            0 <= k < entries.len() ==> requested(names_of(algorithms), q, (#[trigger] entries[k]).algorithm@),
        forall|k: int, l: int|
            0 <= k < l < entries.len() ==> (#[trigger] entries[k]).algorithm@ != (
            #[trigger] entries[l]).algorithm@,
        forall|k: int, single: ScheduleResult|
            0 <= k < entries.len() && #[trigger] scheduled_alone(entries[k].algorithm@, processes, q, single)
                ==> entries[k]@ == single@,
{
    let algos = names_of(algorithms);
    let c = choose|checked: Seq<Process>|
        normalized(processes, checked) && valid_processes(checked) && results_for(
            entries,
            algos,
            q,
            checked,
        );
    assert forall|k: int, single: ScheduleResult|
        0 <= k < entries.len() && #[trigger] scheduled_alone(entries[k].algorithm@, processes, q, single)
        implies entries[k]@ == single@ by {
        let label = entries[k].algorithm@;
        assert(requested(algos, q, label));
        let a = choose|a: int| 0 <= a < algos.len() && label_for(uppercase_of(#[trigger] algos[a]), q) == label;
        lemma_no_bad_algorithm(algos, q, 0, a);
        let b = choose|checked: Seq<Process>|
            normalized(processes, checked) && valid_processes(checked) && describes(
                single,
                label,
                checked,
                timeline_for(label, checked, q),
            );
        lemma_entry_matches(processes, algorithms, q, entries, k, single, b);
    }
}

/// The FCFS schedule that `run_selected` files is the one that
/// `schedule_fcfs` gives for the same processes.
pub proof fn lemma_selected_fcfs(
    processes: Seq<Process>,
    algorithms: Seq<String>,
    q: u32,
    entries: Seq<ScheduleResult>,
    k: int,
    single: ScheduleResult,
)
    requires
        exists|checked: Seq<Process>|
            normalized(processes, checked) && valid_processes(checked) && results_for(
                entries,
                names_of(algorithms),
                q,
                checked,
            ),
        exists|checked: Seq<Process>|
            normalized(processes, checked) && valid_processes(checked) && describes(
                single,
                "FCFS"@,
                checked,
                fcfs_timeline(checked),
            ),
        0 <= k < entries.len(),
        entries[k].algorithm@ == "FCFS"@,
    ensures
        entries[k]@ == single@,
{
    let b = choose|checked: Seq<Process>|
        normalized(processes, checked) && valid_processes(checked) && describes(
            single,
            "FCFS"@,
            checked,
            fcfs_timeline(checked),
        );
    lemma_entry_matches(processes, algorithms, q, entries, k, single, b);
}

/// The Round Robin schedule that `run_selected` files is the one that
/// `schedule_rr` gives for the same processes and quantum.
pub proof fn lemma_selected_rr(
    processes: Seq<Process>,
    algorithms: Seq<String>,
    q: u32,
    entries: Seq<ScheduleResult>,
    k: int,
    single: ScheduleResult,
)
    requires
        exists|checked: Seq<Process>|
            normalized(processes, checked) && valid_processes(checked) && results_for(
                entries,
                names_of(algorithms),
                q,
                checked,
            ),
        1 <= q <= 6,
        exists|checked: Seq<Process>|
            normalized(processes, checked) && valid_processes(checked) && describes(
                single,
                rr_label(q),
                checked,
                rr_timeline(checked, q * TICKS_PER_UNIT),
            ),
        0 <= k < entries.len(),
        entries[k].algorithm@ == rr_label(q),
    ensures
        entries[k]@ == single@,
{
    let b = choose|checked: Seq<Process>|
        normalized(processes, checked) && valid_processes(checked) && describes(
            single,
            rr_label(q),
            checked,
            rr_timeline(checked, q * TICKS_PER_UNIT),
        );
    reveal_strlit("FCFS");
    reveal_strlit("SPN");
    reveal_strlit("SRT");
    reveal_strlit("HRRN");
    reveal_strlit("RR q=");
    assert(rr_label(q).len() >= 5);
    assert(timeline_for(rr_label(q), b, q) == rr_timeline(b, q * TICKS_PER_UNIT));
    lemma_entry_matches(processes, algorithms, q, entries, k, single, b);
}

/// The SPN schedule that `run_selected` files is the one that
/// `schedule_spn` gives for the same processes.
pub proof fn lemma_selected_spn(
    processes: Seq<Process>,
    algorithms: Seq<String>,
    q: u32,
    entries: Seq<ScheduleResult>,
    k: int,
    single: ScheduleResult,
)
    requires
        exists|checked: Seq<Process>|
            normalized(processes, checked) && valid_processes(checked) && results_for(
                entries,
                names_of(algorithms),
                q,
                checked,
            ),
        exists|checked: Seq<Process>|
            normalized(processes, checked) && valid_processes(checked) && describes(
                single,
                "SPN"@,
                checked,
                priority_timeline(checked, Priority::ShortestNext),
            ),
        0 <= k < entries.len(),
        entries[k].algorithm@ == "SPN"@,
    ensures
        entries[k]@ == single@,
{
    let b = choose|checked: Seq<Process>|
        normalized(processes, checked) && valid_processes(checked) && describes(
            single,
            "SPN"@,
            checked,
            priority_timeline(checked, Priority::ShortestNext),
        );
    reveal_strlit("FCFS");
    reveal_strlit("SPN");
    assert("SPN"@ != "FCFS"@) by {
        assert("SPN"@.len() != "FCFS"@.len());
    }
    assert(timeline_for("SPN"@, b, q) == priority_timeline(b, Priority::ShortestNext));
    lemma_entry_matches(processes, algorithms, q, entries, k, single, b);
}

/// The SRT schedule that `run_selected` files is the one that
/// `schedule_srt` gives for the same processes.
pub proof fn lemma_selected_srt(
    processes: Seq<Process>,
    algorithms: Seq<String>,
    q: u32,
    entries: Seq<ScheduleResult>,
    k: int,
    single: ScheduleResult,
)
    requires
        exists|checked: Seq<Process>|
            normalized(processes, checked) && valid_processes(checked) && results_for(
                entries,
                names_of(algorithms),
                q,
                checked,
            ),
        exists|checked: Seq<Process>|
            normalized(processes, checked) && valid_processes(checked) && describes(
                single,
                "SRT"@,
                checked,
                srt_timeline(checked),
            ),
        0 <= k < entries.len(),
        entries[k].algorithm@ == "SRT"@,
    ensures
        entries[k]@ == single@,
{
    let b = choose|checked: Seq<Process>|
        normalized(processes, checked) && valid_processes(checked) && describes(
            single,
            "SRT"@,
            checked,
            srt_timeline(checked),
        );
    reveal_strlit("FCFS");
    reveal_strlit("SPN");
    reveal_strlit("SRT");
    assert("SRT"@ != "FCFS"@) by {
        assert("SRT"@.len() != "FCFS"@.len());
    }
    assert("SRT"@ != "SPN"@) by {
        assert("SRT"@[1] != "SPN"@[1]);
    }
    assert(timeline_for("SRT"@, b, q) == srt_timeline(b));
    lemma_entry_matches(processes, algorithms, q, entries, k, single, b);
}

/// The HRRN schedule that `run_selected` files is the one that
/// `schedule_hrrn` gives for the same processes.
pub proof fn lemma_selected_hrrn(
    processes: Seq<Process>,
    algorithms: Seq<String>,
    q: u32,
    entries: Seq<ScheduleResult>,
    k: int,
    single: ScheduleResult,
)
    requires
        exists|checked: Seq<Process>|
            normalized(processes, checked) && valid_processes(checked) && results_for(
                entries,
                names_of(algorithms),
                q,
                checked,
            ),
        exists|checked: Seq<Process>|
            normalized(processes, checked) && valid_processes(checked) && describes(
                single,
                "HRRN"@,
                checked,
                priority_timeline(checked, Priority::HighestRatio),
            ),
        0 <= k < entries.len(),
        entries[k].algorithm@ == "HRRN"@,
    ensures
        entries[k]@ == single@,
{
    let b = choose|checked: Seq<Process>|
        normalized(processes, checked) && valid_processes(checked) && describes(
            single,
            "HRRN"@,
            checked,
            priority_timeline(checked, Priority::HighestRatio),
        );
    reveal_strlit("FCFS");
    reveal_strlit("SPN");
    reveal_strlit("SRT");
    reveal_strlit("HRRN");
    assert("HRRN"@ != "FCFS"@) by {
        assert("HRRN"@[0] != "FCFS"@[0]);
    }
    assert("HRRN"@ != "SPN"@) by {
        assert("HRRN"@.len() != "SPN"@.len());
    }
    assert("HRRN"@ != "SRT"@) by {
        assert("HRRN"@.len() != "SRT"@.len());
    }
    assert(timeline_for("HRRN"@, b, q) == priority_timeline(b, Priority::HighestRatio));
    lemma_entry_matches(processes, algorithms, q, entries, k, single, b);
}

/// The place of an algorithm's label in displays: FCFS, RR, SPN, SRT, HRRN,
/// then anything else.
pub fn algo_priority(name: &str) -> (r: usize)
    ensures
        r == if starts_with(name@, "FCFS"@) {
            0
        } else if starts_with(name@, "RR"@) {
            1
        } else if starts_with(name@, "SPN"@) {
            2
        } else if starts_with(name@, "SRT"@) {
            3
        } else if starts_with(name@, "HRRN"@) {
            4
        } else {
            5usize
        },
{
    if str_starts_with(name, "FCFS") {
        0
    } else if str_starts_with(name, "RR") {
        1
    } else if str_starts_with(name, "SPN") {
        2
    } else if str_starts_with(name, "SRT") {
        3
    } else if str_starts_with(name, "HRRN") {
        4
    } else {
        5
    }
}

/// `prefix` is a prefix of `s`.
pub open spec fn starts_with(s: Seq<char>, prefix: Seq<char>) -> bool {
    prefix.len() <= s.len() && s.subrange(0, prefix.len() as int) == prefix
}

} // verus!
