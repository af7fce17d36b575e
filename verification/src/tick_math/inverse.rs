//! How the square-root price of a negative tick, the inverse of the price of
//! its magnitude, falls as the magnitude grows.
//!
//! Near `MIN_TICK` neighbouring prices lie one unit apart: the 152 lowest
//! ticks have the prices 19850 to 20001 in turn.

use crate::decimal::{div_fixed, scale};
use crate::fixed_point::{lemma_div_fixed_bounds, lemma_div_is, lemma_trunc_div_nonneg};
use crate::tick_math::boundary::{lemma_price_of_min_magnitude, lemma_price_of_zero, price_of_min_magnitude};
use crate::tick_math::decoding::lemma_price_with_top_bit;
use crate::tick_math::encoding::{lemma_price_increasing, lemma_price_step};
use crate::tick_math::price_of_magnitude;
use vstd::arithmetic::power2::lemma2_to64;
use vstd::prelude::*;

verus! {

/// The square-root price of the tick `-n`.
pub open spec fn inverse_price(n: nat) -> int {
    div_fixed(scale(), price_of_magnitude(n))
}

/// The inverse of `f >= 1` is the `q` with `q * f <= 10^36 < (q + 1) * f`.
pub proof fn lemma_inverse_is(f: int, q: int)
    requires
        f > 0,
        q * f <= scale() * scale() < (q + 1) * f,
    ensures
        div_fixed(scale(), f) == q,
{
    lemma_div_is(scale() * scale(), f, q);
    lemma_trunc_div_nonneg(scale() * scale(), f);
}

/// A larger price has an inverse that is no larger.
pub proof fn lemma_inverse_antitone(f: int, g: int)
    requires
        0 < f <= g,
    ensures
        div_fixed(scale(), g) <= div_fixed(scale(), f),
{
    let x = div_fixed(scale(), f);
    let y = div_fixed(scale(), g);
    lemma_div_fixed_bounds(scale(), f);
    lemma_div_fixed_bounds(scale(), g);
    assert(y <= x) by (nonlinear_arith)
        requires
            y * g <= scale() * scale(),
            scale() * scale() < (x + 1) * f,
            0 < f <= g,
            y >= 0,
    ;
}

/// The price of magnitude 630891, bit by bit: its inverse is 20001 units.
pub proof fn lemma_last_separated_magnitude()
    ensures
        price_of_magnitude(630891) == 49996437941055181140447709437974,
        inverse_price(630891) == 20001,
{
    lemma2_to64();
    lemma_price_of_zero();
    lemma_price_with_top_bit(0, 0);
    assert(price_of_magnitude(1) == 1000049998750062496);
    lemma_price_with_top_bit(1, 1);
    assert(price_of_magnitude(3) == 1000150003749937502);
    lemma_price_with_top_bit(3, 3);
    assert(price_of_magnitude(11) == 1000550123764438395);
    lemma_price_with_top_bit(11, 5);
    assert(price_of_magnitude(43) == 1002152205183100197);
    lemma_price_with_top_bit(43, 6);
    assert(price_of_magnitude(107) == 1005364067888904462);
    lemma_price_with_top_bit(107, 13);
    assert(price_of_magnitude(8299) == 1514263608632162755);
    lemma_price_with_top_bit(8299, 15);
    assert(price_of_magnitude(41067) == 7793167118644192850);
    lemma_price_with_top_bit(41067, 16);
    assert(price_of_magnitude(106603) == 206413927652169099009);
    lemma_price_with_top_bit(106603, 19);
    lemma_inverse_is(49996437941055181140447709437974, 20001);
}

/// Where the inverse of the price of `n + 1` is at least 20001 units, the
/// inverse of the price of `n` is larger.
pub proof fn lemma_inverse_step_when_separated(n: nat)
    requires
        n + 1 < 0x100000,
        inverse_price(n + 1) >= 20001,
    ensures
        inverse_price(n + 1) < inverse_price(n),
{
    let f = price_of_magnitude(n);
    let g = price_of_magnitude(n + 1);
    let x = inverse_price(n);
    let y = inverse_price(n + 1);
    lemma2_to64();
    lemma_price_step(n);
    lemma_div_fixed_bounds(scale(), f);
    lemma_div_fixed_bounds(scale(), g);
    assert((y + 1) * f <= y * g) by (nonlinear_arith)
        requires
            20001 * (g - f) >= f,
            y >= 20001,
            g >= f,
    ;
    assert(y < x) by (nonlinear_arith)
        requires
            (y + 1) * f <= y * g,
            y * g <= scale() * scale(),
            scale() * scale() < (x + 1) * f,
            f > 0,
    ;
}

/// For `0 <= i <= 150`, the price of magnitude `631042 - i` times `19851 + i`
/// exceeds `10^36`.
proof fn lemma_tail_above(i: int)
    requires
        0 <= i <= 150,
    ensures
        price_of_magnitude((631042 - i) as nat) * (19851 + i) > scale() * scale(),
    decreases i,
{
    if i == 0 {
        lemma_price_of_min_magnitude();
        assert(price_of_min_magnitude() * 19851 > scale() * scale());
    } else {
        let f = price_of_magnitude((631042 - i) as nat);
        let g = price_of_magnitude((631042 - i + 1) as nat);
        lemma_tail_above(i - 1);
        lemma2_to64();
        lemma_price_step((631042 - i) as nat);
        assert(f * (19851 + i) > scale() * scale()) by (nonlinear_arith)
            requires
                g * (19851 + (i - 1)) > scale() * scale(),
                20000 * (g - f) <= f,
                1 <= i <= 150,
                f > 0,
        ;
    }
}

/// For `0 <= i <= 151`, the price of magnitude `631042 - i` times `19850 + i`
/// does not exceed `10^36`.
proof fn lemma_tail_below(i: int)
    requires
        0 <= i <= 151,
    ensures
        price_of_magnitude((631042 - i) as nat) * (19850 + i) <= scale() * scale(),
    decreases 151 - i,
{
    if i == 151 {
        lemma_last_separated_magnitude();
        assert(49996437941055181140447709437974 * 20001 <= scale() * scale());
    } else {
        let f = price_of_magnitude((631042 - (i + 1)) as nat);
        let g = price_of_magnitude((631042 - i) as nat);
        lemma_tail_below(i + 1);
        lemma2_to64();
        lemma_price_step((631042 - (i + 1)) as nat);
        assert(g * (19850 + i) <= scale() * scale()) by (nonlinear_arith)
            requires
                f * (19850 + (i + 1)) <= scale() * scale(),
                20000 * (g - f) <= f,
                0 <= i <= 150,
                f > 0,
        ;
    }
}

/// The 152 lowest ticks have the prices 19850 to 20001 units in turn.
pub proof fn lemma_tail_prices(i: int)
    requires
        0 <= i <= 151,
    ensures
        inverse_price((631042 - i) as nat) == 19850 + i,
{
    let f = price_of_magnitude((631042 - i) as nat);
    if i == 151 {
        lemma_last_separated_magnitude();
    } else {
        lemma2_to64();
        lemma_price_step((631042 - i) as nat);
        lemma_tail_above(i);
        lemma_tail_below(i);
        assert((19850 + i + 1) * f == f * (19851 + i)) by (nonlinear_arith);
        assert((19850 + i) * f == f * (19850 + i)) by (nonlinear_arith);
        lemma_inverse_is(f, 19850 + i);
    }
}

/// Up to magnitude `-MIN_TICK`, the inverse of the price of `n + 1` is below
/// that of `n`.
pub proof fn lemma_inverse_step(n: nat)
    requires
        n + 1 <= 631042,
    ensures
        inverse_price(n + 1) < inverse_price(n),
{
    lemma2_to64();
    if n + 1 <= 630891 {
        lemma_last_separated_magnitude();
        lemma_price_step(n);
        if n + 1 < 630891 {
            lemma_price_increasing(n + 1, 630891);
        }
        lemma_inverse_antitone(price_of_magnitude(n + 1), price_of_magnitude(630891));
        lemma_inverse_step_when_separated(n);
    } else {
        let i = 631042 - (n + 1);
        lemma_tail_prices(i);
        lemma_tail_prices(i + 1);
    }
}

/// Up to magnitude `-MIN_TICK`, the inverse of the price falls strictly as
/// the magnitude grows.
pub proof fn lemma_inverse_decreasing(m: nat, n: nat)
    requires
        m < n <= 631042,
    ensures
        inverse_price(n) < inverse_price(m),
    decreases n - m,
{
    lemma_inverse_step((n - 1) as nat);
    if m + 1 < n {
        lemma_inverse_decreasing(m, (n - 1) as nat);
    }
}

} // verus!
