//! The square-root prices of the ticks at the ends of the supported range,
//! and why a magnitude read off a supported price is itself supported.

use crate::decimal::{div_fixed, scale};
use crate::fixed_point::lemma_div_fixed_bounds;
use crate::tick_math::decoding::{lemma_greedy_below, lemma_price_ignores_clear_bits, lemma_price_with_top_bit};
use crate::tick_math::encoding::{lemma_price_increasing, lemma_price_range, lemma_price_step};
use crate::tick_math::{candidate_tick, greedy_magnitude, max_sqrt_price, min_sqrt_price, price_of_magnitude, sqrt_price_in_bounds, sqrt_price_of_tick, tick_in_bounds, corrected_tick};
use vstd::arithmetic::power2::lemma2_to64;
use vstd::prelude::*;

verus! {

/// The price of magnitude `MAX_TICK`.
pub open spec fn price_of_max_magnitude() -> int {
    170134484377190040957155711420855095752
}

/// The price of magnitude `-MIN_TICK`.
pub open spec fn price_of_min_magnitude() -> int {
    50375320585998468914569142805442
}

/// The price of magnitude zero is one.
pub proof fn lemma_price_of_zero()
    ensures
        price_of_magnitude(0) == scale(),
{
    lemma2_to64();
    lemma_price_ignores_clear_bits(0, 0, 20);
}

/// The price of magnitude 931709, bit by bit.
pub proof fn lemma_price_of_max_magnitude()
    ensures
        price_of_magnitude(931709) == price_of_max_magnitude(),
{
    lemma2_to64();
    lemma_price_of_zero();
    lemma_price_with_top_bit(0, 0);
    assert(price_of_magnitude(1) == 1000049998750062496);
    lemma_price_with_top_bit(1, 2);
    assert(price_of_magnitude(5) == 1000250018750312495);
    lemma_price_with_top_bit(5, 3);
    assert(price_of_magnitude(13) == 1000650178776814838);
    lemma_price_with_top_bit(13, 4);
    assert(price_of_magnitude(29) == 1001450979157929747);
    lemma_price_with_top_bit(29, 5);
    assert(price_of_magnitude(61) == 1003054503026752250);
    lemma_price_with_top_bit(61, 6);
    assert(price_of_magnitude(125) == 1006269257565532149);
    lemma_price_with_top_bit(125, 8);
    assert(price_of_magnitude(381) == 1019231638219955475);
    lemma_price_with_top_bit(381, 9);
    assert(price_of_magnitude(893) == 1045659479937703240);
    lemma_price_with_top_bit(893, 10);
    assert(price_of_magnitude(1917) == 1100588688284983744);
    lemma_price_with_top_bit(1917, 12);
    assert(price_of_magnitude(6013) == 1350716197580093153);
    lemma_price_with_top_bit(6013, 13);
    assert(price_of_magnitude(14205) == 2034427575953073574);
    lemma_price_with_top_bit(14205, 17);
    assert(price_of_magnitude(145277) == 1427224362347997811617);
    lemma_price_with_top_bit(145277, 18);
    assert(price_of_magnitude(407421) == 702412583687981561327396000);
    lemma_price_with_top_bit(407421, 19);
}

/// The price of magnitude 631042, bit by bit.
pub proof fn lemma_price_of_min_magnitude()
    ensures
        price_of_magnitude(631042) == price_of_min_magnitude(),
        div_fixed(scale(), price_of_min_magnitude()) == min_sqrt_price(),
{
    lemma2_to64();
    lemma_price_of_zero();
    lemma_price_with_top_bit(0, 1);
    assert(price_of_magnitude(2) == 1000100000000000000);
    lemma_price_with_top_bit(2, 8);
    assert(price_of_magnitude(258) == 1012982910607695400);
    lemma_price_with_top_bit(258, 13);
    assert(price_of_magnitude(8450) == 1525738990175470614);
    lemma_price_with_top_bit(8450, 15);
    assert(price_of_magnitude(41218) == 7852225241422422433);
    lemma_price_with_top_bit(41218, 16);
    assert(price_of_magnitude(106754) == 207978172188033641714);
    lemma_price_with_top_bit(106754, 19);
}

/// The magnitude read off a price between one and the highest supported
/// price is at most `MAX_TICK`.
pub proof fn lemma_greedy_of_supported_price(price: int)
    requires
        scale() <= price <= max_sqrt_price(),
    ensures
        greedy_magnitude(price, 20) <= 931709,
        price_of_magnitude(greedy_magnitude(price, 20)) <= price,
{
    let n = greedy_magnitude(price, 20);
    lemma2_to64();
    lemma_greedy_below(price, 20);
    if n > 931709 {
        lemma_price_of_max_magnitude();
        lemma_price_step(931709);
        if n > 931710 {
            lemma_price_increasing(931710, n);
        }
    }
}

/// The inverse of a supported price below one is above one, and the magnitude
/// read off it is at most `-MIN_TICK`.
pub proof fn lemma_greedy_of_supported_inverse(price: int)
    requires
        min_sqrt_price() <= price < scale(),
    ensures
        scale() < div_fixed(scale(), price) <= 50377833753148614609571788413098,
        greedy_magnitude(div_fixed(scale(), price), 20) <= 631042,
        price_of_magnitude(greedy_magnitude(div_fixed(scale(), price), 20)) <= div_fixed(
            scale(),
            price,
        ),
{
    let q = div_fixed(scale(), price);
    let n = greedy_magnitude(q, 20);
    lemma_div_fixed_bounds(scale(), price);
    assert(q > scale()) by (nonlinear_arith)
        requires
            scale() * scale() < (q + 1) * price,
            0 < price < scale(),
            q >= 0,
    ;
    assert(q <= 50377833753148614609571788413098) by (nonlinear_arith)
        requires
            q * price <= scale() * scale(),
            price >= 19850,
            q >= 0,
            scale() == 1_000_000_000_000_000_000,
    ;
    lemma2_to64();
    lemma_greedy_below(q, 20);
    if n > 631042 {
        lemma_price_of_min_magnitude();
        lemma_price_step(631042);
        if n > 631043 {
            lemma_price_increasing(631043, n);
        }
    }
}

/// The corrected candidate of a supported price is a supported tick. The square-root price
/// of the candidate is never above a price of at least one, and never below a
/// price below one.
pub proof fn lemma_corrected_tick_in_bounds(price: int)
    requires
        sqrt_price_in_bounds(price),
    ensures
        tick_in_bounds(candidate_tick(price)),
        tick_in_bounds(corrected_tick(price)),
        price >= scale() ==> sqrt_price_of_tick(candidate_tick(price)) <= price,
        price < scale() ==> sqrt_price_of_tick(candidate_tick(price)) >= price,
{
    lemma_price_of_zero();
    if price >= scale() {
        lemma_greedy_of_supported_price(price);
        if candidate_tick(price) == 931709 {
            lemma_price_of_max_magnitude();
        }
    } else {
        let q = div_fixed(scale(), price);
        let n = greedy_magnitude(q, 20);
        let low = price_of_magnitude(n);
        lemma_greedy_of_supported_inverse(price);
        lemma2_to64();
        lemma_price_range(n, 20);
        lemma_div_fixed_bounds(scale(), price);
        lemma_div_fixed_bounds(scale(), low);
        assert(div_fixed(scale(), low) >= price) by (nonlinear_arith)
            requires
                q * price <= scale() * scale(),
                scale() * scale() < (div_fixed(scale(), low) + 1) * low,
                0 < low <= q,
                price > 0,
        ;
        if n == 631042 {
            lemma_price_of_min_magnitude();
        }
    }
}

} // verus!
