//! Sums over integer sequences, and the small facts about them that the
//! statistic loops need: prefix sums, bounds, and sign information.

use vstd::prelude::*;

verus! {

/// The square of an integer.
pub open spec fn sq(x: int) -> int {
    x * x
}

/// Absolute value of an integer.
pub open spec fn abs_val(x: int) -> int {
    if x < 0 {
        -x
    } else {
        x
    }
}

/// Sum of a sequence of integers.
pub open spec fn sum_int(s: Seq<int>) -> int
    decreases s.len(),
{
    if s.len() == 0 {
        0
    } else {
        sum_int(s.drop_last()) + s.last()
    }
}

/// Extending a prefix by one element adds that element to the prefix sum.
pub proof fn lemma_sum_take_succ(s: Seq<int>, i: int)
    requires
        0 <= i < s.len(),
    ensures
        sum_int(s.take(i + 1)) == sum_int(s.take(i)) + s[i],
{
    let t = s.take(i + 1);
    assert(t.drop_last() =~= s.take(i));
}

/// A sum of elements that all lie in `[-b, b]` lies in `[-len * b, len * b]`.
pub proof fn lemma_sum_bound(s: Seq<int>, b: int)
    requires
        forall|i: int| 0 <= i < s.len() ==> -b <= #[trigger] s[i] <= b,
    ensures
        -(s.len() * b) <= sum_int(s) <= s.len() * b,
    decreases s.len(),
{
    if s.len() == 0 {
    } else {
        let d = s.drop_last();
        assert(forall|i: int| 0 <= i < d.len() ==> -b <= #[trigger] d[i] <= b);
        lemma_sum_bound(d, b);
        assert((s.len() - 1) * b + b == s.len() * b) by (nonlinear_arith);
    }
}

/// A sum of non-negative elements is non-negative.
pub proof fn lemma_sum_nonneg(s: Seq<int>)
    requires
        forall|i: int| 0 <= i < s.len() ==> 0 <= #[trigger] s[i],
    ensures
        0 <= sum_int(s),
    decreases s.len(),
{
    if s.len() == 0 {
    } else {
        let d = s.drop_last();
        assert(forall|i: int| 0 <= i < d.len() ==> 0 <= #[trigger] d[i]);
        lemma_sum_nonneg(d);
    }
}

/// A sum of zeros is zero.
pub proof fn lemma_sum_zero(s: Seq<int>)
    requires
        forall|i: int| 0 <= i < s.len() ==> #[trigger] s[i] == 0,
    ensures
        sum_int(s) == 0,
    decreases s.len(),
{
    if s.len() == 0 {
    } else {
        let d = s.drop_last();
        assert(forall|i: int| 0 <= i < d.len() ==> #[trigger] d[i] == 0);
        lemma_sum_zero(d);
    }
}

/// For non-negative elements, a prefix sum never exceeds the full sum.
pub proof fn lemma_sum_take_le(s: Seq<int>, i: int)
    requires
        0 <= i <= s.len(),
        forall|k: int| 0 <= k < s.len() ==> 0 <= #[trigger] s[k],
    ensures
        sum_int(s.take(i)) <= sum_int(s),
    decreases s.len(),
{
    if i == s.len() {
        assert(s.take(i) =~= s);
    } else {
        let d = s.drop_last();
        assert(forall|k: int| 0 <= k < d.len() ==> 0 <= #[trigger] d[k]);
        lemma_sum_take_le(d, i);
        assert(s.take(i) =~= d.take(i));
    }
}

/// For non-negative elements, each element is at most the full sum.
pub proof fn lemma_sum_elem_le(s: Seq<int>, i: int)
    requires
        0 <= i < s.len(),
        forall|k: int| 0 <= k < s.len() ==> 0 <= #[trigger] s[k],
    ensures
        s[i] <= sum_int(s),
{
    lemma_sum_take_succ(s, i);
    lemma_sum_take_le(s, i + 1);
    let t = s.take(i);
    assert(forall|k: int| 0 <= k < t.len() ==> 0 <= #[trigger] t[k]);
    lemma_sum_nonneg(t);
}

} // verus!
