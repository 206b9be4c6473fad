//! Sums of remaining work.
use vstd::prelude::*;
use crate::process::{Process, MAX_TICKS};

verus! {

/// The sum of the elements of `s`.
pub open spec fn sum_of(s: Seq<int>) -> int
    decreases s.len(),
{
    if s.len() == 0 {
        0
    } else {
        sum_of(s.drop_last()) + s.last()
    }
}

/// Some element of `s` is positive: some process still has work to do.
pub open spec fn has_work(s: Seq<int>) -> bool {
    exists|i: int| 0 <= i < s.len() && #[trigger] s[i] > 0
}

/// The service times of `ps`.
pub open spec fn services(ps: Seq<Process>) -> Seq<int> {
    Seq::new(ps.len(), |i: int| ps[i].service as int)
}

/// A sequence of times as mathematical integers.
pub open spec fn i64_seq_to_int(s: Seq<i64>) -> Seq<int> {
    s.map_values(|x: i64| x as int)
}

/// Changing one element changes the sum by the difference.
pub proof fn lemma_sum_update(s: Seq<int>, i: int, v: int)
    requires
        0 <= i < s.len(),
    ensures
        sum_of(s.update(i, v)) == sum_of(s) - s[i] + v,
    decreases s.len(),
{
    if i < s.len() - 1 {
        assert(s.update(i, v).drop_last() =~= s.drop_last().update(i, v));
        lemma_sum_update(s.drop_last(), i, v);
    } else {
        assert(s.update(i, v).drop_last() =~= s.drop_last());
    }
}

/// A sum of non-negative elements is non-negative, positive exactly when
/// some element is, and at least every element.
pub proof fn lemma_sum_nonneg(s: Seq<int>)
    requires
        forall|i: int| 0 <= i < s.len() ==> s[i] >= 0,
    ensures
        sum_of(s) >= 0,
        sum_of(s) > 0 <==> has_work(s),
        forall|i: int| 0 <= i < s.len() ==> s[i] <= sum_of(s),
    decreases s.len(),
{
    if s.len() > 0 {
        let t = s.drop_last();
        assert forall|i: int| 0 <= i < t.len() implies t[i] >= 0 by {
            assert(t[i] == s[i]);
        }
        lemma_sum_nonneg(t);
        if has_work(t) {
            let i = choose|i: int| 0 <= i < t.len() && #[trigger] t[i] > 0;
            assert(s[i] > 0);
        }
        if has_work(s) {
            let i = choose|i: int| 0 <= i < s.len() && #[trigger] s[i] > 0;
            if i < s.len() - 1 {
                assert(t[i] > 0);
            }
        }
        assert forall|i: int| 0 <= i < s.len() implies s[i] <= sum_of(s) by {
            if i < s.len() - 1 {
                assert(t[i] == s[i]);
            }
        }
    }
}

/// Elementwise smaller sequences have a smaller sum.
pub proof fn lemma_sum_le(s: Seq<int>, t: Seq<int>)
    requires
        s.len() == t.len(),
        forall|i: int| 0 <= i < s.len() ==> s[i] <= t[i],
    ensures
        sum_of(s) <= sum_of(t),
    decreases s.len(),
{
    if s.len() > 0 {
        lemma_sum_le(s.drop_last(), t.drop_last());
    }
}

/// The sum of `n` values of at most `MAX_TICKS` is at most `n * MAX_TICKS`.
pub proof fn lemma_sum_bound(s: Seq<int>)
    requires
        forall|i: int| 0 <= i < s.len() ==> s[i] <= MAX_TICKS,
    ensures
        sum_of(s) <= s.len() * MAX_TICKS,
    decreases s.len(),
{
    if s.len() > 0 {
        lemma_sum_bound(s.drop_last());
    }
}

} // verus!
