//! Small arithmetic facts shared by the interpolation and split-point
//! proofs: order-preservation of products and bounds on truncated means.

use vstd::prelude::*;

verus! {

use vstd::arithmetic::div_mod::lemma_div_is_ordered;
use vstd::arithmetic::div_mod::lemma_div_multiples_vanish;

/// Multiplication keeps the order of nonnegative factors.
pub(crate) proof fn lemma_mul_le(a: int, b: int, c: int, d: int)
    requires
        0 <= a <= b,
        0 <= c <= d,
    ensures
        a * c <= b * d,
{
    assert(a * c <= b * d) by (nonlinear_arith)
        requires
            0 <= a <= b,
            0 <= c <= d,
    ;
}

/// A quotient of nonnegative integers is bounded by any `bound` whose
/// product with the divisor dominates the dividend.
pub(crate) proof fn lemma_div_le_bound(x: int, d: int, bound: int)
    requires
        0 <= x,
        0 < d,
        x <= d * bound,
    ensures
        x / d <= bound,
{
    lemma_div_is_ordered(x, d * bound, d);
    lemma_div_multiples_vanish(bound, d);
}

/// A quotient of nonnegative integers dominates any `bound` whose
/// product with the divisor stays below the dividend.
pub(crate) proof fn lemma_div_ge_bound(x: int, d: int, bound: int)
    requires
        0 < d,
        0 <= d * bound,
        d * bound <= x,
    ensures
        bound <= x / d,
{
    lemma_div_is_ordered(d * bound, x, d);
    lemma_div_multiples_vanish(bound, d);
}

/// The mean of a sum of `count` integers, truncated toward zero, as the
/// split-point computation performs it.
pub open spec fn truncated_mean(sum: int, count: int) -> int {
    if sum >= 0 {
        sum / count
    } else {
        -((-sum) / count)
    }
}

/// The truncated mean of a sum lies between any pointwise lower and
/// upper bound of the summands.
pub(crate) proof fn lemma_truncated_mean_bounds(sum: int, count: int, mn: int, mx: int)
    requires
        count >= 1,
        mn <= mx,
        count * mn <= sum,
        sum <= count * mx,
    ensures
        mn <= truncated_mean(sum, count),
        truncated_mean(sum, count) <= mx,
{
    if sum >= 0 {
        if mn >= 0 {
            lemma_div_ge_bound(sum, count, mn);
        } else {
            lemma_div_ge_bound(sum, count, 0);
            assert(sum / count >= 0 >= mn);
        }
        lemma_div_le_bound(sum, count, mx);
    } else {
        let t = -sum;
        assert(t <= count * (-mn)) by {
            assert(count * (-mn) == -(count * mn)) by (nonlinear_arith);
        }
        assert(0 <= count * (-mn)) by (nonlinear_arith)
            requires
                count >= 1,
                count * mn <= sum < 0,
        ;
        lemma_div_le_bound(t, count, -mn);
        assert(truncated_mean(sum, count) == -(t / count));
        if mx < 0 {
            assert(count * (-mx) <= t) by {
                assert(count * (-mx) == -(count * mx)) by (nonlinear_arith);
            }
            assert(0 <= count * (-mx)) by (nonlinear_arith)
                requires
                    count >= 1,
                    mx < 0,
            ;
            lemma_div_ge_bound(t, count, -mx);
        } else {
            assert(t / count >= 0) by {
                lemma_div_ge_bound(t, count, 0);
            }
            assert(-(t / count) <= 0 <= mx);
        }
    }
}

} // verus!
