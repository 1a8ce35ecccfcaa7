use vstd::prelude::*;
use vstd::arithmetic::div_mod::{lemma_fundamental_div_mod, lemma_mod_bound};

verus! {

/// `n / d` rounded to the nearest integer, halves rounded away from zero.
pub open spec fn round_div(n: int, d: int) -> int
    recommends
        d > 0,
{
    if n >= 0 {
        (2 * n + d) / (2 * d)
    } else {
        -((-2 * n + d) / (2 * d))
    }
}

/// The rounded quotient lies within half a unit of the exact one; a tie sits
/// below it for a non-negative `n` and above it for a negative one.
pub proof fn lemma_round_div_bounds(n: int, d: int)
    requires
        d > 0,
    ensures
        n >= 0 ==> 2 * d * round_div(n, d) - d <= 2 * n && 2 * n < 2 * d * round_div(n, d) + d,
        n < 0 ==> 2 * d * round_div(n, d) - d < 2 * n && 2 * n <= 2 * d * round_div(n, d) + d,
{
    if n >= 0 {
        let x = 2 * n + d;
        lemma_fundamental_div_mod(x, 2 * d);
        lemma_mod_bound(x, 2 * d);
        let q = x / (2 * d);
        assert(2 * d * q == (2 * d) * q) by (nonlinear_arith);
    } else {
        let x = -2 * n + d;
        lemma_fundamental_div_mod(x, 2 * d);
        lemma_mod_bound(x, 2 * d);
        let q = x / (2 * d);
        assert(2 * d * (-q) == -((2 * d) * q)) by (nonlinear_arith);
    }
}

/// An exact multiple rounds to its quotient.
pub proof fn lemma_round_div_exact(k: int, d: int)
    requires
        d > 0,
    ensures
        round_div(k * d, d) == k,
{
    let n = k * d;
    let r = round_div(n, d);
    lemma_round_div_bounds(n, d);
    assert(2 * d * r == 2 * (d * r)) by (nonlinear_arith);
    assert(n == d * k) by (nonlinear_arith)
        requires n == k * d;
    if r > k {
        assert(d * r >= d * k + d) by (nonlinear_arith)
            requires r >= k + 1, d > 0;
    } else if r < k {
        assert(d * r <= d * k - d) by (nonlinear_arith)
            requires r <= k - 1, d > 0;
    }
}

/// Rounding is monotone in the numerator.
pub proof fn lemma_round_div_monotone(n1: int, n2: int, d: int)
    requires
        d > 0,
        n1 <= n2,
    ensures
        round_div(n1, d) <= round_div(n2, d),
{
    let r1 = round_div(n1, d);
    let r2 = round_div(n2, d);
    lemma_round_div_bounds(n1, d);
    lemma_round_div_bounds(n2, d);
    if r1 > r2 {
        assert(2 * d * r1 >= 2 * d * r2 + 2 * d) by (nonlinear_arith)
            requires r1 >= r2 + 1, d > 0;
    }
}

/// Adding less than one whole denominator moves the rounded value by at most one.
pub proof fn lemma_round_div_small_step(n: int, delta: int, d: int)
    requires
        d > 0,
        0 <= delta < d,
    ensures
        round_div(n, d) <= round_div(n + delta, d) <= round_div(n, d) + 1,
{
    lemma_round_div_monotone(n, n + delta, d);
    let r1 = round_div(n, d);
    let r2 = round_div(n + delta, d);
    lemma_round_div_bounds(n, d);
    lemma_round_div_bounds(n + delta, d);
    if r2 > r1 + 1 {
        assert(2 * d * r2 >= 2 * d * r1 + 4 * d) by (nonlinear_arith)
            requires r2 >= r1 + 2, d > 0;
    }
}

/// `n / d` rounded to the nearest integer, halves away from zero, for a positive `d`.
pub fn round_div_exec(n: i128, d: i128) -> (r: i128)
    requires
        d > 0,
        -0x1000_0000_0000_0000_0000_0000_0000 <= n <= 0x1000_0000_0000_0000_0000_0000_0000,
        d <= 0x1000_0000_0000_0000_0000_0000_0000,
    ensures
        r == round_div(n as int, d as int),
{
    if n >= 0 {
        (2 * n + d) / (2 * d)
    } else {
        -((d - 2 * n) / (2 * d))
    }
}

} // verus!
