//! Facts about fixed-point products and quotients of non-negative numbers.

use crate::decimal::{div_fixed, mul_fixed, scale, trunc_div};
use vstd::prelude::*;

verus! {

/// On non-negative operands, rounding towards zero is rounding down.
pub proof fn lemma_trunc_div_nonneg(n: int, d: int)
    requires
        n >= 0,
        d > 0,
    ensures
        trunc_div(n, d) == n / d,
        trunc_div(n, d) * d <= n < (trunc_div(n, d) + 1) * d,
        trunc_div(n, d) >= 0,
{
    assert((n / d) * d <= n < (n / d + 1) * d && n / d >= 0) by (nonlinear_arith)
        requires
            n >= 0,
            d > 0,
    ;
}

/// A quotient that rounds down is the one `q` with `q * d <= n < (q + 1) * d`.
pub proof fn lemma_div_is(n: int, d: int, q: int)
    requires
        d > 0,
        q * d <= n < (q + 1) * d,
    ensures
        n / d == q,
{
    assert(n / d == q) by (nonlinear_arith)
        requires
            d > 0,
            q * d <= n < (q + 1) * d,
    ;
}

/// The product `p` of non-negative `a` and `b` satisfies
/// `p * 10^18 <= a * b < (p + 1) * 10^18`.
pub proof fn lemma_mul_fixed_bounds(a: int, b: int)
    requires
        a >= 0,
        b >= 0,
    ensures
        mul_fixed(a, b) >= 0,
        mul_fixed(a, b) * scale() <= a * b < (mul_fixed(a, b) + 1) * scale(),
{
    assert(a * b >= 0) by (nonlinear_arith)
        requires
            a >= 0,
            b >= 0,
    ;
    lemma_trunc_div_nonneg(a * b, scale());
}

/// The quotient `q` of non-negative `a` by positive `b` satisfies
/// `q * b <= a * 10^18 < (q + 1) * b`.
pub proof fn lemma_div_fixed_bounds(a: int, b: int)
    requires
        a >= 0,
        b > 0,
    ensures
        div_fixed(a, b) >= 0,
        div_fixed(a, b) * b <= a * scale() < (div_fixed(a, b) + 1) * b,
{
    lemma_trunc_div_nonneg(a * scale(), b);
}

/// Multiplying by one changes nothing.
pub proof fn lemma_mul_fixed_one(c: int)
    requires
        c >= 0,
    ensures
        mul_fixed(scale(), c) == c,
        mul_fixed(c, scale()) == c,
{
    lemma_mul_fixed_bounds(scale(), c);
    lemma_mul_fixed_bounds(c, scale());
    lemma_div_is(scale() * c, scale(), c);
    lemma_div_is(c * scale(), scale(), c);
    lemma_trunc_div_nonneg(scale() * c, scale());
    lemma_trunc_div_nonneg(c * scale(), scale());
}

/// The product grows with its first factor.
pub proof fn lemma_mul_fixed_monotone(a: int, b: int, c: int)
    requires
        0 <= a <= b,
        c >= 0,
    ensures
        mul_fixed(a, c) <= mul_fixed(b, c),
{
    lemma_mul_fixed_bounds(a, c);
    lemma_mul_fixed_bounds(b, c);
    let x = mul_fixed(a, c);
    let y = mul_fixed(b, c);
    assert(x <= y) by (nonlinear_arith)
        requires
            0 <= a <= b,
            c >= 0,
            x * scale() <= a * c,
            b * c < (y + 1) * scale(),
            scale() > 0,
    ;
}

/// Multiplying by a factor of at least one does not shrink a number.
pub proof fn lemma_mul_fixed_grows(a: int, c: int)
    requires
        a >= 0,
        c >= scale(),
    ensures
        mul_fixed(a, c) >= a,
{
    lemma_mul_fixed_monotone(scale(), c, a);
    lemma_mul_fixed_one(a);
    assert(scale() * a == a * scale()) by (nonlinear_arith);
    assert(c * a == a * c) by (nonlinear_arith);
}

/// Dividing `a` by a divisor `c` between one and `a` leaves a quotient
/// between one and `a`.
pub proof fn lemma_div_fixed_range(a: int, c: int)
    requires
        scale() <= c <= a,
    ensures
        scale() <= div_fixed(a, c) <= a,
{
    lemma_div_fixed_bounds(a, c);
    let q = div_fixed(a, c);
    assert(q >= scale()) by (nonlinear_arith)
        requires
            a * scale() < (q + 1) * c,
            0 < c <= a,
            scale() > 0,
    ;
    assert(q <= a) by (nonlinear_arith)
        requires
            q * c <= a * scale(),
            c >= scale(),
            scale() > 0,
            a >= 0,
            q >= 0,
    ;
}

/// A quotient times its divisor does not exceed the dividend.
pub proof fn lemma_quotient_times_divisor(a: int, d: int)
    requires
        a >= 0,
        d > 0,
    ensures
        0 <= mul_fixed(div_fixed(a, d), d) <= a,
{
    let q = div_fixed(a, d);
    lemma_div_fixed_bounds(a, d);
    lemma_mul_fixed_bounds(q, d);
    assert(mul_fixed(q, d) <= a) by (nonlinear_arith)
        requires
            mul_fixed(q, d) * scale() <= q * d,
            q * d <= a * scale(),
            scale() > 0,
    ;
}

} // verus!
