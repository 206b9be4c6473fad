//! The order of arrival: by arrival time, then table position, then name.
use vstd::prelude::*;
use crate::names::{
    chars_less, str_less, lemma_chars_less_total, lemma_chars_less_transitive,
    lemma_chars_less_irreflexive,
};
use crate::process::{Process, valid_processes, same_table, lemma_same_table_valid};

verus! {

/// `a` comes before `b` in order of arrival: it arrives earlier, or at the
/// same time from an earlier table position, or from the same position
/// with a smaller name.
pub open spec fn arrival_before(a: Process, b: Process) -> bool {
    ||| a.arrival < b.arrival
    ||| a.arrival == b.arrival && a.order < b.order
    ||| a.arrival == b.arrival && a.order == b.order && chars_less(a.name@, b.name@)
}

/// `o` lists every index of `ps` once, in order of arrival.
pub open spec fn is_arrival_order(ps: Seq<Process>, o: Seq<int>) -> bool {
    &&& o.len() == ps.len()
    &&& forall|k: int| 0 <= k < o.len() ==> 0 <= #[trigger] o[k] < ps.len()
    &&& forall|i: int| 0 <= i < ps.len() ==> #[trigger] o.contains(i)
    &&& forall|k: int, l: int|
        0 <= k < l < o.len() ==> arrival_before(ps[#[trigger] o[k]], ps[#[trigger] o[l]])
}

/// The order of arrival of `ps`.
pub open spec fn arrival_order(ps: Seq<Process>) -> Seq<int> {
    choose|o: Seq<int>| is_arrival_order(ps, o)
}

/// A sequence of indices as mathematical integers.
pub open spec fn usize_seq_to_int(s: Seq<usize>) -> Seq<int> {
    s.map_values(|x: usize| x as int)
}

/// Arrival order is a strict total order on processes with distinct names.
pub proof fn lemma_arrival_before_order(a: Process, b: Process, c: Process)
    ensures
        !arrival_before(a, a),
        !(arrival_before(a, b) && arrival_before(b, a)),
        a.name@ != b.name@ ==> arrival_before(a, b) || arrival_before(b, a),
        arrival_before(a, b) && arrival_before(b, c) ==> arrival_before(a, c),
{
    lemma_chars_less_irreflexive(a.name@);
    lemma_chars_less_total(a.name@, b.name@);
    if arrival_before(a, b) && arrival_before(b, c) && a.arrival == c.arrival && a.order == c.order {
        lemma_chars_less_transitive(a.name@, b.name@, c.name@);
    }
}

/// Two orders of arrival of the same processes are the same.
pub proof fn lemma_arrival_order_unique(ps: Seq<Process>, o1: Seq<int>, o2: Seq<int>)
    requires
        is_arrival_order(ps, o1),
        is_arrival_order(ps, o2),
    ensures
        o1 == o2,
{
    assert forall|k: int| 0 <= k < o1.len() implies o1[k] == o2[k] by {
        lemma_arrival_order_unique_at(ps, o1, o2, k);
    }
    assert(o1 =~= o2);
}

proof fn lemma_arrival_order_unique_at(ps: Seq<Process>, o1: Seq<int>, o2: Seq<int>, k: int)
    requires
        is_arrival_order(ps, o1),
        is_arrival_order(ps, o2),
        0 <= k < o1.len(),
    ensures
        o1[k] == o2[k],
    decreases k,
{
    assert forall|m: int| 0 <= m < k implies o1[m] == o2[m] by {
        lemma_arrival_order_unique_at(ps, o1, o2, m);
    }
    let x = o1[k];
    let y = o2[k];
    assert(o1.contains(y));
    assert(o2.contains(x));
    let p = choose|p: int| 0 <= p < o1.len() && o1[p] == y;
    let q = choose|q: int| 0 <= q < o2.len() && o2[q] == x;
    lemma_arrival_before_order(ps[x], ps[y], ps[x]);
    lemma_arrival_before_order(ps[y], ps[y], ps[y]);
    lemma_arrival_before_order(ps[x], ps[x], ps[x]);
    if p < k {
        assert(o2[p] == y);
        assert(arrival_before(ps[o2[p]], ps[o2[k]]));
    }
    if q < k {
        assert(o1[q] == x);
        assert(arrival_before(ps[o1[q]], ps[o1[k]]));
    }
    if p != k && q != k {
        assert(arrival_before(ps[o1[k]], ps[o1[p]]));
        assert(arrival_before(ps[o2[k]], ps[o2[q]]));
    } else if p == k {
    } else {
    }
}

/// The indices `o` of `ps` are in order of arrival.
pub open spec fn sorted_by_arrival(ps: Seq<Process>, o: Seq<int>) -> bool {
    forall|k: int, l: int|
        0 <= k < l < o.len() ==> arrival_before(ps[#[trigger] o[k]], ps[#[trigger] o[l]])
}

/// Puts `x` into the order `o`, before the first index that arrives after it.
proof fn insert_by_arrival(ps: Seq<Process>, o: Seq<int>, x: int) -> (r: Seq<int>)
    requires
        valid_processes(ps),
        sorted_by_arrival(ps, o),
        0 <= x < ps.len(),
        forall|m: int| 0 <= m < o.len() ==> 0 <= #[trigger] o[m] < ps.len() && o[m] != x,
    ensures
        r.len() == o.len() + 1,
        sorted_by_arrival(ps, r),
        r.contains(x),
        forall|i: int| o.contains(i) ==> r.contains(i),
        forall|m: int| 0 <= m < r.len() ==> #[trigger] r[m] == x || o.contains(r[m]),
    decreases o.len(),
{
    if o.len() == 0 {
        let r = seq![x];
        assert(r[0] == x);
        r
    } else if arrival_before(ps[x], ps[o[0]]) {
        let r = seq![x] + o;
        assert(r[0] == x);
        assert forall|k: int, l: int| 0 <= k < l < r.len() implies arrival_before(
            ps[#[trigger] r[k]],
            ps[#[trigger] r[l]],
        ) by {
            if k == 0 {
                assert(r[l] == o[l - 1]);
                if l > 1 {
                    assert(arrival_before(ps[o[0]], ps[o[l - 1]]));
                    lemma_arrival_before_order(ps[x], ps[o[0]], ps[o[l - 1]]);
                }
            } else {
                assert(r[k] == o[k - 1] && r[l] == o[l - 1]);
            }
        }
        assert forall|i: int| o.contains(i) implies r.contains(i) by {
            let m = choose|m: int| 0 <= m < o.len() && o[m] == i;
            assert(r[m + 1] == i);
        }
        assert forall|m: int| 0 <= m < r.len() implies #[trigger] r[m] == x || o.contains(r[m]) by {
            if m > 0 {
                assert(r[m] == o[m - 1]);
            }
        }
        r
    } else {
        let tail = o.drop_first();
        assert forall|k: int, l: int| 0 <= k < l < tail.len() implies arrival_before(
            ps[#[trigger] tail[k]],
            ps[#[trigger] tail[l]],
        ) by {
            assert(tail[k] == o[k + 1] && tail[l] == o[l + 1]);
        }
        assert forall|m: int| 0 <= m < tail.len() implies 0 <= #[trigger] tail[m] < ps.len() && tail[m]
            != x by {
            assert(tail[m] == o[m + 1]);
        }
        let r0 = insert_by_arrival(ps, tail, x);
        let r = seq![o[0]] + r0;
        assert(r[0] == o[0]);
        assert(ps[x].name@ != ps[o[0]].name@);
        lemma_arrival_before_order(ps[x], ps[o[0]], ps[x]);
        assert forall|k: int, l: int| 0 <= k < l < r.len() implies arrival_before(
            ps[#[trigger] r[k]],
            ps[#[trigger] r[l]],
        ) by {
            if k == 0 {
                assert(r[l] == r0[l - 1]);
                if r0[l - 1] != x {
                    assert(tail.contains(r0[l - 1]));
                    let m = choose|m: int| 0 <= m < tail.len() && tail[m] == r0[l - 1];
                    assert(tail[m] == o[m + 1]);
                    assert(arrival_before(ps[o[0]], ps[o[m + 1]]));
                }
            } else {
                assert(r[k] == r0[k - 1] && r[l] == r0[l - 1]);
            }
        }
        assert(r0.contains(x));
        let mx = choose|m: int| 0 <= m < r0.len() && r0[m] == x;
        assert(r[mx + 1] == x);
        assert forall|i: int| o.contains(i) implies r.contains(i) by {
            let m = choose|m: int| 0 <= m < o.len() && o[m] == i;
            if m == 0 {
                assert(r[0] == i);
            } else {
                assert(tail[m - 1] == i);
                assert(tail.contains(i));
                let m2 = choose|m2: int| 0 <= m2 < r0.len() && r0[m2] == i;
                assert(r[m2 + 1] == i);
            }
        }
        assert forall|m: int| 0 <= m < r.len() implies #[trigger] r[m] == x || o.contains(r[m]) by {
            if m == 0 {
                assert(o[0] == r[0]);
            } else {
                assert(r[m] == r0[m - 1]);
                if r0[m - 1] != x {
                    assert(tail.contains(r0[m - 1]));
                    let m2 = choose|m2: int| 0 <= m2 < tail.len() && tail[m2] == r0[m - 1];
                    assert(o[m2 + 1] == r[m]);
                }
            }
        }
        r
    }
}

/// The first `k` processes of `ps` in order of arrival.
proof fn arrival_order_upto(ps: Seq<Process>, k: int) -> (o: Seq<int>)
    requires
        valid_processes(ps),
        0 <= k <= ps.len(),
    ensures
        o.len() == k,
        sorted_by_arrival(ps, o),
        forall|m: int| 0 <= m < o.len() ==> 0 <= #[trigger] o[m] < k,
        forall|i: int| 0 <= i < k ==> #[trigger] o.contains(i),
    decreases k,
{
    if k == 0 {
        seq![]
    } else {
        let o0 = arrival_order_upto(ps, k - 1);
        let r = insert_by_arrival(ps, o0, k - 1);
        assert forall|m: int| 0 <= m < r.len() implies 0 <= #[trigger] r[m] < k by {
            if r[m] != k - 1 {
                let m2 = choose|m2: int| 0 <= m2 < o0.len() && o0[m2] == r[m];
            }
        }
        assert forall|i: int| 0 <= i < k implies #[trigger] r.contains(i) by {
            if i < k - 1 {
                assert(o0.contains(i));
            }
        }
        r
    }
}

/// Valid processes have an order of arrival.
pub proof fn lemma_arrival_order_exists(ps: Seq<Process>)
    requires
        valid_processes(ps),
    ensures
        is_arrival_order(ps, arrival_order(ps)),
{
    let o = arrival_order_upto(ps, ps.len() as int);
    assert(is_arrival_order(ps, o));
}

/// Whether `o` is an order of arrival depends on the names and times alone.
pub proof fn lemma_arrival_order_same_table(a: Seq<Process>, b: Seq<Process>)
    requires
        valid_processes(a),
        same_table(a, b),
    ensures
        arrival_order(a) == arrival_order(b),
{
    lemma_arrival_order_exists(a);
    lemma_same_table_valid(a, b);
    lemma_arrival_order_exists(b);
    let o = arrival_order(a);
    assert(is_arrival_order(b, o)) by {
        assert forall|k: int, l: int| 0 <= k < l < o.len() implies arrival_before(
            b[#[trigger] o[k]],
            b[#[trigger] o[l]],
        ) by {
            assert(arrival_before(a[o[k]], a[o[l]]));
            assert(a[o[k]].name@ == b[o[k]].name@ && a[o[l]].name@ == b[o[l]].name@);
        }
    }
    lemma_arrival_order_unique(b, o, arrival_order(b));
}

/// An order of arrival holds no index twice.
pub proof fn lemma_arrival_order_distinct(ps: Seq<Process>, o: Seq<int>, k: int, l: int)
    requires
        is_arrival_order(ps, o),
        0 <= k < o.len(),
        0 <= l < o.len(),
        k != l,
    ensures
        o[k] != o[l],
{
    lemma_arrival_before_order(ps[o[k]], ps[o[k]], ps[o[k]]);
    if k < l {
        assert(arrival_before(ps[o[k]], ps[o[l]]));
    } else {
        assert(arrival_before(ps[o[l]], ps[o[k]]));
    }
}

/// `a` comes before `b` in order of arrival.
pub(crate) fn arrives_before(a: &Process, b: &Process) -> (r: bool)
    ensures
        r == arrival_before(*a, *b),
{
    if a.arrival != b.arrival {
        a.arrival < b.arrival
    } else if a.order != b.order {
        a.order < b.order
    } else {
        str_less(a.name.as_str(), b.name.as_str())
    }
}

/// The indices of `processes` in order of arrival.
pub(crate) fn sort_by_arrival(processes: &Vec<Process>) -> (o: Vec<usize>)
    requires
        valid_processes(processes@),
    ensures
        usize_seq_to_int(o@) == arrival_order(processes@),
        is_arrival_order(processes@, usize_seq_to_int(o@)),
{
    let ghost ps = processes@;
    let n = processes.len();
    let mut o: Vec<usize> = Vec::new();
    let mut i: usize = 0;
    while i < n
        invariant
            ps == processes@,
            n == ps.len(),
            valid_processes(ps),
            0 <= i <= n,
            o@.len() == i,
            forall|k: int| 0 <= k < o@.len() ==> 0 <= #[trigger] o@[k] < i,
            forall|j: int| 0 <= j < i ==> #[trigger] o@.contains(j as usize),
            forall|k: int, l: int|
                0 <= k < l < o@.len() ==> arrival_before(
                    ps[#[trigger] o@[k] as int],
                    ps[#[trigger] o@[l] as int],
                ),
        decreases n - i,
    {
        let mut pos: usize = 0;
        while pos < o.len() && !arrives_before(&processes[i], &processes[o[pos]])
            invariant
                0 <= pos <= o@.len(),
                i < n,
                n == ps.len(),
                ps == processes@,
                forall|k: int| 0 <= k < o@.len() ==> 0 <= #[trigger] o@[k] < i,
                forall|k: int|
                    0 <= k < pos ==> !arrival_before(ps[i as int], ps[#[trigger] o@[k] as int]),
            decreases o@.len() - pos,
        {
            pos = pos + 1;
        }
        let ghost old_o = o@;
        o.insert(pos, i);
        proof {
            let t = o@;
            assert forall|k: int| 0 <= k < t.len() implies 0 <= #[trigger] t[k] < i + 1 by {
                if k < pos {
                    assert(t[k] == old_o[k]);
                } else if k > pos {
                    assert(t[k] == old_o[k - 1]);
                }
            }
            assert forall|j: int| 0 <= j < i + 1 implies #[trigger] t.contains(j as usize) by {
                if j == i {
                    assert(t[pos as int] == j);
                } else {
                    assert(old_o.contains(j as usize));
                    let k = choose|k: int| 0 <= k < old_o.len() && old_o[k] == j as usize;
                    if k < pos {
                        assert(t[k] == old_o[k]);
                    } else {
                        assert(t[k + 1] == old_o[k]);
                    }
                }
            }
            assert forall|k: int, l: int| 0 <= k < l < t.len() implies arrival_before(
                ps[#[trigger] t[k] as int],
                ps[#[trigger] t[l] as int],
            ) by {
                let pi = ps[i as int];
                if l < pos {
                    assert(t[k] == old_o[k] && t[l] == old_o[l]);
                } else if l == pos {
                    assert(t[k] == old_o[k]);
                    assert(old_o[k] < i);
                    lemma_arrival_before_order(ps[old_o[k] as int], pi, pi);
                    assert(ps[old_o[k] as int].name@ != pi.name@);
                } else if k > pos {
                    assert(t[k] == old_o[k - 1] && t[l] == old_o[l - 1]);
                } else if k == pos {
                    assert(t[l] == old_o[l - 1]);
                    assert(arrival_before(pi, ps[old_o[pos as int] as int]));
                    if l - 1 > pos {
                        lemma_arrival_before_order(
                            pi,
                            ps[old_o[pos as int] as int],
                            ps[old_o[l - 1] as int],
                        );
                    }
                } else {
                    assert(t[k] == old_o[k] && t[l] == old_o[l - 1]);
                    let a = ps[old_o[k] as int];
                    let b = ps[old_o[pos as int] as int];
                    let c = ps[old_o[l - 1] as int];
                    assert(old_o[k] < i);
                    assert(a.name@ != pi.name@);
                    lemma_arrival_before_order(a, pi, b);
                    assert(arrival_before(a, pi));
                    assert(arrival_before(pi, b));
                    lemma_arrival_before_order(a, b, c);
                }
            }
        }
        i = i + 1;
    }
    proof {
        let s = usize_seq_to_int(o@);
        assert forall|k: int| 0 <= k < s.len() implies 0 <= #[trigger] s[k] < ps.len() by {
            assert(s[k] == o@[k] as int);
        }
        assert forall|j: int| 0 <= j < ps.len() implies #[trigger] s.contains(j) by {
            assert(o@.contains(j as usize));
            let k = choose|k: int| 0 <= k < o@.len() && o@[k] == j as usize;
            assert(s[k] == j);
        }
        assert forall|k: int, l: int| 0 <= k < l < s.len() implies arrival_before(
            ps[#[trigger] s[k]],
            ps[#[trigger] s[l]],
        ) by {
            assert(s[k] == o@[k] as int && s[l] == o@[l] as int);
        }
        assert(is_arrival_order(ps, s));
        lemma_arrival_order_unique(ps, s, arrival_order(ps));
    }
    o
}

} // verus!
