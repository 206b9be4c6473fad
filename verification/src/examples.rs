//! The built-in examples: small tables of processes to load and schedule.
use vstd::prelude::*;

verus! {

/// A built-in example: rows of a process table, each a name, an arrival
/// time and a service time as the table shows them, and the Round Robin
/// quantum that suits it.
pub struct Example {
    pub rows: Vec<(&'static str, &'static str, &'static str)>,
    pub quantum: u32,
}

/// The text of the rows of a table.
pub open spec fn rows_view(rows: Seq<(&'static str, &'static str, &'static str)>) -> Seq<(Seq<char>, Seq<char>, Seq<char>)> {
    rows.map_values(|r: (&'static str, &'static str, &'static str)| (r.0@, r.1@, r.2@))
}

/// The number of built-in examples.
pub const EXAMPLE_COUNT: u32 = 11;

/// The rows of example `n`; the first is the classic five-process table
/// of the textbooks.
pub open spec fn example_rows(n: u32) -> Seq<(Seq<char>, Seq<char>, Seq<char>)> {
    if n == 0 {
        seq![("A"@, "0"@, "3"@), ("B"@, "2"@, "6"@), ("C"@, "4"@, "4"@), ("D"@, "6"@, "5"@), ("E"@, "8"@, "2"@)]
    } else if n == 1 {
        seq![("A"@, "0"@, "5"@), ("B"@, "2"@, "3"@), ("C"@, "5"@, "7"@)]
    } else if n == 2 {
        seq![("A"@, "0"@, "8"@), ("B"@, "1"@, "4"@), ("C"@, "6"@, "8"@)]
    } else if n == 3 {
        seq![("A"@, "0"@, "4"@), ("B"@, "2"@, "6"@), ("C"@, "4"@, "2"@), ("D"@, "7"@, "3"@)]
    } else if n == 4 {
        seq![("A"@, "0"@, "6"@), ("B"@, "3"@, "2"@), ("C"@, "5"@, "8"@), ("D"@, "9"@, "4"@)]
    } else if n == 5 {
        seq![("A"@, "0"@, "9"@), ("B"@, "2"@, "5"@), ("C"@, "6"@, "7"@), ("D"@, "10"@, "4"@)]
    } else if n == 6 {
        seq![("A"@, "0"@, "3"@), ("B"@, "1"@, "7"@), ("C"@, "4"@, "2"@), ("D"@, "6"@, "6"@), ("E"@, "8"@, "2"@)]
    } else if n == 7 {
        seq![("A"@, "0"@, "5"@), ("B"@, "2"@, "9"@), ("C"@, "3"@, "3"@), ("D"@, "7"@, "6"@), ("E"@, "11"@, "2"@)]
    } else if n == 8 {
        seq![("A"@, "0"@, "10"@), ("B"@, "4"@, "4"@), ("C"@, "5"@, "8"@), ("D"@, "9"@, "5"@), ("E"@, "12"@, "3"@)]
    } else if n == 9 {
        seq![("A"@, "0"@, "4"@), ("B"@, "1"@, "6"@), ("C"@, "3"@, "3"@), ("D"@, "5"@, "7"@), ("E"@, "8"@, "2"@), ("F"@, "10"@, "3"@)]
    } else {
        seq![("A"@, "0"@, "7"@), ("B"@, "2"@, "5"@), ("C"@, "4"@, "8"@), ("D"@, "6"@, "3"@), ("E"@, "9"@, "4"@), ("F"@, "13"@, "3"@)]
    }
}

/// The Round Robin quantum of example `n`.
pub open spec fn example_quantum(n: u32) -> u32 {
    if n == 0 {
        1
    } else if n == 1 {
        1
    } else if n == 2 {
        2
    } else if n == 3 {
        4
    } else if n == 4 {
        1
    } else if n == 5 {
        2
    } else if n == 6 {
        4
    } else if n == 7 {
        1
    } else if n == 8 {
        2
    } else if n == 9 {
        4
    } else {
        1
    }
}

/// Example `n`, for `n` below `EXAMPLE_COUNT`.
pub fn example(n: u32) -> (r: Option<Example>)
    ensures
        r is Some <==> n < EXAMPLE_COUNT,
        r matches Some(e) ==> rows_view(e.rows@) == example_rows(n) && e.quantum == example_quantum(n),
{
    if n >= EXAMPLE_COUNT {
        return None;
    }
    let (rows, quantum): (Vec<(&'static str, &'static str, &'static str)>, u32) = if n == 0 {
        (vec![("A", "0", "3"), ("B", "2", "6"), ("C", "4", "4"), ("D", "6", "5"), ("E", "8", "2")], 1)
    } else if n == 1 {
        (vec![("A", "0", "5"), ("B", "2", "3"), ("C", "5", "7")], 1)
    } else if n == 2 {
        (vec![("A", "0", "8"), ("B", "1", "4"), ("C", "6", "8")], 2)
    } else if n == 3 {
        (vec![("A", "0", "4"), ("B", "2", "6"), ("C", "4", "2"), ("D", "7", "3")], 4)
    } else if n == 4 {
        (vec![("A", "0", "6"), ("B", "3", "2"), ("C", "5", "8"), ("D", "9", "4")], 1)
    } else if n == 5 {
        (vec![("A", "0", "9"), ("B", "2", "5"), ("C", "6", "7"), ("D", "10", "4")], 2)
    } else if n == 6 {
        (vec![("A", "0", "3"), ("B", "1", "7"), ("C", "4", "2"), ("D", "6", "6"), ("E", "8", "2")], 4)
    } else if n == 7 {
        (vec![("A", "0", "5"), ("B", "2", "9"), ("C", "3", "3"), ("D", "7", "6"), ("E", "11", "2")], 1)
    } else if n == 8 {
        (vec![("A", "0", "10"), ("B", "4", "4"), ("C", "5", "8"), ("D", "9", "5"), ("E", "12", "3")], 2)
    } else if n == 9 {
        (vec![("A", "0", "4"), ("B", "1", "6"), ("C", "3", "3"), ("D", "5", "7"), ("E", "8", "2"), ("F", "10", "3")], 4)
    } else {
        (vec![("A", "0", "7"), ("B", "2", "5"), ("C", "4", "8"), ("D", "6", "3"), ("E", "9", "4"), ("F", "13", "3")], 1)
    };
    assert(rows_view(rows@) =~= example_rows(n));
    Some(Example { rows, quantum })
}

} // verus!
