//! Processes and the validation that every scheduler runs first.
use vstd::prelude::*;
use vstd::string::*;
use crate::names::{trimmed, trim_str, str_eq, lemma_trimmed_idempotent};

verus! {

/// Number of clock ticks in one unit of schedule time. Arrival and service
/// times are counted in ticks, so a time of 2.5 units is 2500 ticks.
pub const TICKS_PER_UNIT: i64 = 1000;

/// Largest magnitude of an arrival or service time, in ticks.
pub const MAX_TICKS: i64 = 1_099_511_627_776;

/// Largest number of processes in one schedule.
pub const MAX_PROCESSES: usize = 1_048_576;

/// A process to be scheduled: its name, arrival and service time (in
/// ticks), and its position in the input table, used to break ties.
#[derive(Debug, Clone)]
pub struct Process {
    pub name: String,
    pub arrival: i64,
    pub service: i64,
    pub order: usize,
}

impl Process {
    pub fn new(name: &str, arrival: i64, service: i64, order: usize) -> (p: Process)
        ensures
            p.name@ == name@,
            p.arrival == arrival,
            p.service == service,
            p.order == order,
    {
        Process { name: name.to_owned(), arrival, service, order }
    }
}

/// The times of `ps` are small enough that no schedule of them leaves the
/// range of `i64`.
pub open spec fn within_limits(ps: Seq<Process>) -> bool {
    &&& ps.len() <= MAX_PROCESSES
    &&& forall|i: int|
        0 <= i < ps.len() ==> -MAX_TICKS <= #[trigger] ps[i].arrival <= MAX_TICKS
            && -MAX_TICKS <= ps[i].service <= MAX_TICKS
}

/// No two processes of `ps` have the same name.
pub open spec fn distinct_names(ps: Seq<Process>) -> bool {
    forall|i: int, j: int|
        0 <= i < ps.len() && 0 <= j < ps.len() && i != j ==> (#[trigger] ps[i]).name@
            != (#[trigger] ps[j]).name@
}

/// What validation establishes: at least one process, names non-empty and
/// pairwise distinct, arrivals not negative, services positive, all times
/// within the limits.
pub open spec fn valid_processes(ps: Seq<Process>) -> bool {
    &&& ps.len() > 0
    &&& within_limits(ps)
    &&& forall|i: int|
        0 <= i < ps.len() ==> (#[trigger] ps[i]).name@.len() > 0 && ps[i].arrival >= 0
            && ps[i].service > 0
    &&& forall|i: int, j: int|
        0 <= i < ps.len() && 0 <= j < ps.len() && i != j ==> (#[trigger] ps[i]).name@
            != (#[trigger] ps[j]).name@
}

/// The complaint about a name that is empty after trimming.
pub open spec fn msg_empty_name() -> Seq<char> {
    "Process names must not be empty."@
}

/// The complaint about a name used twice.
pub open spec fn msg_duplicate_name(name: Seq<char>) -> Seq<char> {
    "Process names must be unique: "@ + name
}

/// The complaint about an arrival before time 0.
pub open spec fn msg_negative_arrival(name: Seq<char>) -> Seq<char> {
    "Arrival time must be >= 0 for process "@ + name + "."@
}

/// The complaint about a service time that is not positive.
pub open spec fn msg_nonpositive_service(name: Seq<char>) -> Seq<char> {
    "Service time must be > 0 for process "@ + name + "."@
}

/// The complaint about an empty table.
pub open spec fn msg_no_processes() -> Seq<char> {
    "At least one process is required."@
}

/// Some process before position `i` has the trimmed name `name`.
pub open spec fn name_taken_before(ps: Seq<Process>, i: int, name: Seq<char>) -> bool {
    exists|j: int| 0 <= j < i && #[trigger] trimmed(ps[j].name@) == name
}

/// The complaint about the process at position `i`, given that the ones
/// before it passed.
pub open spec fn issue_at(ps: Seq<Process>, i: int) -> Option<Seq<char>> {
    let name = trimmed(ps[i].name@);
    if name.len() == 0 {
        Some(msg_empty_name())
    } else if name_taken_before(ps, i, name) {
        Some(msg_duplicate_name(name))
    } else if ps[i].arrival < 0 {
        Some(msg_negative_arrival(name))
    } else if ps[i].service <= 0 {
        Some(msg_nonpositive_service(name))
    } else {
        None
    }
}

/// The first complaint about a process at position `k` or later.
pub open spec fn first_issue(ps: Seq<Process>, k: int) -> Option<Seq<char>>
    decreases ps.len() - k,
{
    if k < 0 || k >= ps.len() {
        None
    } else if issue_at(ps, k) is Some {
        issue_at(ps, k)
    } else {
        first_issue(ps, k + 1)
    }
}

/// The error message of validation, if it fails.
pub open spec fn validation_error(ps: Seq<Process>) -> Option<Seq<char>> {
    match first_issue(ps, 0) {
        Some(m) => Some(m),
        None => if ps.len() == 0 {
            Some(msg_no_processes())
        } else {
            None
        },
    }
}

/// `out` is `ps` with every name trimmed.
pub open spec fn normalized(ps: Seq<Process>, out: Seq<Process>) -> bool {
    &&& out.len() == ps.len()
    &&& forall|i: int|
        0 <= i < ps.len() ==> (#[trigger] out[i]).name@ == trimmed(ps[i].name@) && out[i].arrival
            == ps[i].arrival && out[i].service == ps[i].service && out[i].order == ps[i].order
}

/// `a` and `b` hold the same processes in the same places: the same names,
/// times and table positions.
pub open spec fn same_table(a: Seq<Process>, b: Seq<Process>) -> bool {
    &&& a.len() == b.len()
    &&& forall|i: int|
        0 <= i < a.len() ==> (#[trigger] a[i]).name@ == b[i].name@ && a[i].arrival == b[i].arrival
            && a[i].service == b[i].service && a[i].order == b[i].order
}

/// Two normalizations of the same table are the same table, and what is
/// valid of one is valid of the other.
pub proof fn lemma_normalized_same_table(ps: Seq<Process>, a: Seq<Process>, b: Seq<Process>)
    requires
        normalized(ps, a),
        normalized(ps, b),
    ensures
        same_table(a, b),
        valid_processes(a) ==> valid_processes(b),
{
    assert forall|i: int| 0 <= i < a.len() implies (#[trigger] a[i]).name@ == b[i].name@ by {
        assert(a[i].name@ == trimmed(ps[i].name@));
        assert(b[i].name@ == trimmed(ps[i].name@));
    }
    lemma_same_table_valid(a, b);
}

/// Validity depends on the names and times alone.
pub proof fn lemma_same_table_valid(a: Seq<Process>, b: Seq<Process>)
    requires
        same_table(a, b),
    ensures
        valid_processes(a) ==> valid_processes(b),
        same_table(b, a),
{
    if valid_processes(a) {
        assert forall|i: int, j: int|
            0 <= i < b.len() && 0 <= j < b.len() && i != j implies (#[trigger] b[i]).name@
            != (#[trigger] b[j]).name@ by {
            assert(a[i].name@ != a[j].name@);
        }
        assert forall|i: int| 0 <= i < b.len() implies (#[trigger] b[i]).name@.len() > 0
            && b[i].arrival >= 0 && b[i].service > 0 && -MAX_TICKS <= b[i].arrival <= MAX_TICKS
            && -MAX_TICKS <= b[i].service <= MAX_TICKS by {
            assert(a[i].name@ == b[i].name@);
        }
    }
    assert forall|i: int| 0 <= i < b.len() implies (#[trigger] b[i]).name@ == a[i].name@
        && b[i].arrival == a[i].arrival && b[i].service == a[i].service && b[i].order
        == a[i].order by {
        assert(a[i].name@ == b[i].name@);
    }
}

proof fn lemma_first_issue_none(ps: Seq<Process>, k: int)
    requires
        0 <= k <= ps.len(),
        forall|i: int| k <= i < ps.len() ==> #[trigger] issue_at(ps, i) is None,
    ensures
        first_issue(ps, k) is None,
    decreases ps.len() - k,
{
    if k < ps.len() {
        lemma_first_issue_none(ps, k + 1);
    }
}

proof fn lemma_first_issue_skip(ps: Seq<Process>, k: int, i: int)
    requires
        0 <= k <= i < ps.len(),
        forall|j: int| k <= j < i ==> #[trigger] issue_at(ps, j) is None,
    ensures
        first_issue(ps, k) == first_issue(ps, i),
    decreases i - k,
{
    if k < i {
        lemma_first_issue_skip(ps, k + 1, i);
    }
}

/// Validating a table that validation returned gives the same table back:
/// it passes, and its names are already trimmed.
pub proof fn lemma_validate_idempotent(ps: Seq<Process>, v: Seq<Process>)
    requires
        normalized(ps, v),
        valid_processes(v),
    ensures
        validation_error(v) is None,
        forall|w: Seq<Process>| #[trigger] normalized(v, w) ==> same_table(w, v),
{
    assert forall|i: int| 0 <= i < v.len() implies #[trigger] trimmed(v[i].name@) == v[i].name@ by {
        lemma_trimmed_idempotent(ps[i].name@);
    }
    assert forall|i: int| 0 <= i < v.len() implies #[trigger] issue_at(v, i) is None by {
        assert(trimmed(v[i].name@) == v[i].name@);
        if name_taken_before(v, i, v[i].name@) {
            let j = choose|j: int| 0 <= j < i && #[trigger] trimmed(v[j].name@) == v[i].name@;
            assert(trimmed(v[j].name@) == v[j].name@);
        }
    }
    lemma_first_issue_none(v, 0);
    assert forall|w: Seq<Process>| #[trigger] normalized(v, w) implies same_table(w, v) by {
        assert forall|i: int| 0 <= i < w.len() implies (#[trigger] w[i]).name@ == v[i].name@
            && w[i].arrival == v[i].arrival && w[i].service == v[i].service && w[i].order
            == v[i].order by {
            assert(trimmed(v[i].name@) == v[i].name@);
        }
    }
}

/// Checks the processes and returns them with trimmed names, or the message
/// of the first problem found.
pub fn validate_processes(processes: &[Process]) -> (r: Result<Vec<Process>, String>)
    requires
        within_limits(processes@),
    ensures
        r is Ok <==> validation_error(processes@) is None,
        r matches Err(m) ==> validation_error(processes@) == Some(m@),
        r matches Ok(v) ==> normalized(processes@, v@) && valid_processes(v@),
{
    let mut normalized_list: Vec<Process> = Vec::new();
    let n = processes.len();
    let mut i: usize = 0;
    while i < n
        invariant
            n == processes@.len(),
            within_limits(processes@),
            0 <= i <= n,
            normalized_list@.len() == i,
            forall|k: int| 0 <= k < i ==> #[trigger] issue_at(processes@, k) is None,
            forall|k: int|
                0 <= k < i ==> (#[trigger] normalized_list@[k]).name@ == trimmed(
                    processes@[k].name@,
                ) && normalized_list@[k].arrival == processes@[k].arrival
                    && normalized_list@[k].service == processes@[k].service
                    && normalized_list@[k].order == processes@[k].order,
        decreases n - i,
    {
        let process = &processes[i];
        let name_str = trim_str(process.name.as_str());
        if name_str.is_empty() {
            proof {
                lemma_first_issue_skip(processes@, 0, i as int);
            }
            return Err(String::from_str("Process names must not be empty."));
        }
        let mut j: usize = 0;
        let mut taken = false;
        while j < i
            invariant
                0 <= j <= i,
                i < n,
                n == processes@.len(),
                normalized_list@.len() == i,
                name_str@ == trimmed(processes@[i as int].name@),
                forall|k: int|
                    0 <= k < i ==> (#[trigger] normalized_list@[k]).name@ == trimmed(
                        processes@[k].name@,
                    ),
                taken <==> exists|k: int|
                    0 <= k < j && #[trigger] trimmed(processes@[k].name@) == name_str@,
            decreases i - j,
        {
            let same = str_eq(normalized_list[j].name.as_str(), name_str);
            proof {
                if same {
                    assert(trimmed(processes@[j as int].name@) == name_str@);
                }
            }
            taken = taken || same;
            j = j + 1;
        }
        if taken {
            proof {
                lemma_first_issue_skip(processes@, 0, i as int);
            }
            let mut msg = String::from_str("Process names must be unique: ");
            msg.append(name_str);
            return Err(msg);
        }
        if process.arrival < 0 {
            proof {
                lemma_first_issue_skip(processes@, 0, i as int);
            }
            let mut msg = String::from_str("Arrival time must be >= 0 for process ");
            msg.append(name_str);
            msg.append(".");
            return Err(msg);
        }
        if process.service <= 0 {
            proof {
                lemma_first_issue_skip(processes@, 0, i as int);
            }
            let mut msg = String::from_str("Service time must be > 0 for process ");
            msg.append(name_str);
            msg.append(".");
            return Err(msg);
        }
        normalized_list.push(
            Process {
                name: name_str.to_owned(),
                arrival: process.arrival,
                service: process.service,
                order: process.order,
            },
        );
        i = i + 1;
    }
    proof {
        lemma_first_issue_none(processes@, 0);
    }
    if normalized_list.len() == 0 {
        return Err(String::from_str("At least one process is required."));
    }
    proof {
        let ps = processes@;
        let v = normalized_list@;
        assert forall|a: int, b: int|
            0 <= a < v.len() && 0 <= b < v.len() && a != b implies (#[trigger] v[a]).name@
            != (#[trigger] v[b]).name@ by {
            let (lo, hi) = if a < b {
                (a, b)
            } else {
                (b, a)
            };
            assert(issue_at(ps, hi) is None);
            if v[a].name@ == v[b].name@ {
                assert(trimmed(ps[lo].name@) == trimmed(ps[hi].name@));
                assert(name_taken_before(ps, hi, trimmed(ps[hi].name@)));
            }
        }
        assert forall|k: int| 0 <= k < v.len() implies (#[trigger] v[k]).name@.len() > 0
            && v[k].arrival >= 0 && v[k].service > 0 by {
            assert(issue_at(ps, k) is None);
        }
        assert forall|k: int| 0 <= k < v.len() implies -MAX_TICKS <= #[trigger] v[k].arrival
            <= MAX_TICKS && -MAX_TICKS <= v[k].service <= MAX_TICKS by {
            assert(-MAX_TICKS <= ps[k].arrival <= MAX_TICKS);
        }
    }
    Ok(normalized_list)
}

} // verus!
