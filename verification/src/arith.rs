//! Facts about multiplication and division that the address arithmetic rests on.

use vstd::prelude::*;

verus! {

/// Division with remainder: `x` lies in the `x / d`-th stretch of length `d`.
pub proof fn lemma_div_rem(x: int, d: int)
    by (nonlinear_arith)
    requires
        0 <= x,
        0 < d,
    ensures
        0 <= x / d <= x,
        0 <= x % d < d,
        x == (x / d) * d + x % d,
        (x / d) * d <= x < (x / d) * d + d,
{
}

/// Quotient and remainder are determined by `x == q * d + r` with `0 <= r < d`.
pub proof fn lemma_div_rem_unique(x: int, d: int, q: int, r: int)
    by (nonlinear_arith)
    requires
        0 < d,
        0 <= r < d,
        x == q * d + r,
    ensures
        x / d == q,
        x % d == r,
{
}

/// Stretches of length `d` with different indices do not overlap.
pub proof fn lemma_stretch_order(a: int, b: int, d: int)
    by (nonlinear_arith)
    requires
        0 <= a < b,
        0 < d,
    ensures
        0 <= a * d,
        a * d + d <= b * d,
{
}

/// A product of non-negative factors is monotone in the first factor.
pub proof fn lemma_mul_le(a: int, b: int, d: int)
    by (nonlinear_arith)
    requires
        0 <= a <= b,
        0 <= d,
    ensures
        0 <= a * d <= b * d,
{
}

/// `n` stretches of length `d` fit below `x` exactly when `n <= x / d`.
pub proof fn lemma_fits(n: int, d: int, x: int)
    by (nonlinear_arith)
    requires
        0 <= n,
        0 < d,
        0 <= x,
    ensures
        n * d <= x <==> n <= x / d,
{
}

/// The sum of two multiples of `d` is a multiple of `d`.
pub proof fn lemma_multiple_sum(a: int, b: int, d: int)
    requires
        0 <= a,
        0 <= b,
        0 < d,
        a % d == 0,
        b % d == 0,
    ensures
        (a + b) % d == 0,
{
    lemma_div_rem(a, d);
    lemma_div_rem(b, d);
    assert((a / d + b / d) * d == (a / d) * d + (b / d) * d) by (nonlinear_arith);
    lemma_div_rem_unique(a + b, d, a / d + b / d, 0);
}

/// A multiple of a multiple of `d` is a multiple of `d`.
pub proof fn lemma_multiple_times(k: int, a: int, d: int)
    requires
        0 <= k,
        0 <= a,
        0 < d,
        a % d == 0,
    ensures
        0 <= k * a,
        (k * a) % d == 0,
{
    lemma_div_rem(a, d);
    assert(k * a == (k * (a / d)) * d) by (nonlinear_arith)
        requires
            a == (a / d) * d,
    ;
    assert(0 <= k * a) by (nonlinear_arith)
        requires
            0 <= k,
            0 <= a,
    ;
    lemma_div_rem_unique(k * a, d, k * (a / d), 0);
}

/// Distinct numbers below `n` are at most `n` many.
pub proof fn lemma_distinct_below(s: Seq<usize>, n: nat)
    requires
        s.no_duplicates(),
        forall|i: int| 0 <= i < s.len() ==> s[i] < n,
    ensures
        s.len() <= n,
    decreases n,
{
    if s.len() > 0 {
        assert(s[0] < n);
        let top = (n - 1) as usize;
        if s.contains(top) {
            let i = s.index_of(top);
            let rest = s.remove(i);
            assert forall|j: int| 0 <= j < rest.len() implies rest[j] < n - 1 by {
                if j < i {
                    assert(rest[j] == s[j]);
                } else {
                    assert(rest[j] == s[j + 1]);
                }
            }
            assert(rest.no_duplicates());
            lemma_distinct_below(rest, (n - 1) as nat);
        } else {
            assert forall|j: int| 0 <= j < s.len() implies s[j] < n - 1 by {
                assert(s.contains(s[j]));
            }
            lemma_distinct_below(s, (n - 1) as nat);
        }
    }
}

/// Distinct numbers below `n` that leave one number below `n` out are fewer than `n`.
pub proof fn lemma_distinct_below_without(s: Seq<usize>, n: nat, k: usize)
    requires
        s.no_duplicates(),
        forall|i: int| 0 <= i < s.len() ==> s[i] < n,
        k < n,
        !s.contains(k),
    ensures
        s.len() < n,
{
    let t = s.push(k);
    assert forall|i: int, j: int| 0 <= i < t.len() && 0 <= j < t.len() && i != j implies t[i]
        != t[j] by {
        if i < s.len() {
            assert(s.contains(s[i]));
        }
        if j < s.len() {
            assert(s.contains(s[j]));
        }
    }
    lemma_distinct_below(t, n);
}

} // verus!
