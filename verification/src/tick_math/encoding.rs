//! How the square-root price grows with the magnitude of a tick.

use crate::decimal::{mul_fixed, scale};
use crate::fixed_point::{lemma_mul_fixed_bounds, lemma_mul_fixed_grows, lemma_mul_fixed_monotone, lemma_mul_fixed_one};
use crate::tick_math::{has_bit, price_of_low_bits, price_of_magnitude, ratio};
use vstd::arithmetic::div_mod::{lemma_fundamental_div_mod, lemma_fundamental_div_mod_converse, lemma_small_mod};
use vstd::arithmetic::power2::{lemma2_to64, lemma_pow2_pos, lemma_pow2_unfold, pow2};
use vstd::prelude::*;

verus! {

/// The price of the magnitude `2^bits - 1`, whose bits below `bits` are all
/// set, for `bits <= 20`.
pub open spec fn all_ones_price(bits: nat) -> int {
    if bits == 0 {
        1000000000000000000
    } else if bits == 1 {
        1000049998750062496
    } else if bits == 2 {
        1000150003749937502
    } else if bits == 3 {
        1000350043752187526
    } else if bits == 4 {
        1000750243794692519
    } else if bits == 5 {
        1001551124255845540
    } else if bits == 6 {
        1003154808477054925
    } else if bits == 7 {
        1006369884491288702
    } else if bits == 8 {
        1012830982162318174
    } else if bits == 9 {
        1025877888475588326
    } else if bits == 10 {
        1052478062019768760
    } else if bits == 11 {
        1107765455151871493
    } else if bits == 12 {
        1227205659309160709
    } else if bits == 13 {
        1506109030044495796
    } else if bits == 14 {
        2268477825766777257
    } else if bits == 15 {
        5146248939145696830
    } else if bits == 16 {
        26485202304462200258
    } else if bits == 17 {
        701501013528556666210
    } else if bits == 18 {
        492128276550092484304862
    } else if bits == 19 {
        242202349789470650283453668696
    } else {
        58664911269129463624743743316133843477616int
    }
}

/// Every ratio is above one.
pub proof fn lemma_ratio_above_one(bit: nat)
    ensures
        scale() < ratio(bit) <= ratio(19),
{
}

/// Setting one more bit multiplies the all-ones price by that bit's ratio.
pub proof fn lemma_all_ones_step(bit: nat)
    requires
        bit < 20,
    ensures
        all_ones_price(bit + 1) == mul_fixed(all_ones_price(bit), ratio(bit)),
{
}

/// The ratio of a bit exceeds the price of all the bits below it by between
/// one part in 20000.5 and one part in 20000.49.
pub proof fn lemma_all_ones_gap(bit: nat)
    requires
        bit < 20,
    ensures
        20000500 * (ratio(bit) - all_ones_price(bit)) >= 1000 * all_ones_price(bit),
        20000490 * (ratio(bit) - all_ones_price(bit)) <= 1000 * all_ones_price(bit),
{
}

/// The price over any number of low bits lies between one and the all-ones
/// price of those bits.
pub proof fn lemma_price_range(n: nat, bits: nat)
    requires
        bits <= 20,
    ensures
        scale() <= price_of_low_bits(n, bits) <= all_ones_price(bits),
    decreases bits,
{
    if bits > 0 {
        let bit = (bits - 1) as nat;
        let below = price_of_low_bits(n, bit);
        lemma_price_range(n, bit);
        lemma_all_ones_step(bit);
        lemma_ratio_above_one(bit);
        lemma_mul_fixed_monotone(below, all_ones_price(bit), ratio(bit));
        lemma_mul_fixed_grows(below, ratio(bit));
        lemma_mul_fixed_grows(all_ones_price(bit), ratio(bit));
    }
}

/// How the quotient and remainder of `n` by `2^bit` change when `n` grows by
/// one, and what they are by `2^(bit + 1)`.
pub proof fn lemma_successor_bits(n: nat, bit: nat)
    ensures
        pow2(bit) > 0,
        pow2(bit + 1) == 2 * pow2(bit),
        n % pow2(bit) + 1 < pow2(bit) ==> (n + 1) / pow2(bit) == n / pow2(bit) && (n + 1) % pow2(
            bit,
        ) == n % pow2(bit) + 1,
        n % pow2(bit) + 1 == pow2(bit) ==> (n + 1) / pow2(bit) == n / pow2(bit) + 1 && (n + 1)
            % pow2(bit) == 0,
        n % pow2(bit + 1) == n % pow2(bit) + pow2(bit) * ((n / pow2(bit)) % 2),
        n / pow2(bit + 1) == (n / pow2(bit)) / 2,
{
    let d = pow2(bit) as int;
    let h = n as int / d;
    let m = n as int % d;
    lemma_pow2_pos(bit);
    lemma_pow2_unfold(bit + 1);
    lemma_fundamental_div_mod(n as int, d);
    assert(0 <= m < d);
    if m + 1 < d {
        lemma_fundamental_div_mod_converse(n as int + 1, d, h, m + 1);
    } else {
        assert(d * (h + 1) == d * h + d) by (nonlinear_arith);
        lemma_fundamental_div_mod_converse(n as int + 1, d, h + 1, 0);
    }
    let top = h / 2;
    let odd = h % 2;
    assert(h == 2 * top + odd);
    assert(d * h == (2 * d) * top + d * odd) by (nonlinear_arith)
        requires
            h == 2 * top + odd,
    ;
    assert(0 <= d * odd + m < 2 * d) by (nonlinear_arith)
        requires
            0 <= odd <= 1,
            0 <= m < d,
    ;
    lemma_fundamental_div_mod_converse(n as int, 2 * d, top, d * odd + m);
}

/// Multiplying two prices `a <= b` that lie apart by at least `1000 / low` of
/// `a` and at most `1000 / high` of `a` by the same ratio leaves the products
/// apart by at least `1000 / (low + 1)` and at most `1000 / (high - 1)` of the
/// smaller product.
pub proof fn lemma_gap_survives_factor(a: int, b: int, c: int, low: int, high: int)
    requires
        scale() <= a <= b,
        scale() <= c,
        1 <= low <= 20000600,
        1 <= high <= 20000600,
        low * (b - a) >= 1000 * a,
        high * (b - a) <= 1000 * a,
    ensures
        mul_fixed(a, c) <= mul_fixed(b, c),
        (low + 1) * (mul_fixed(b, c) - mul_fixed(a, c)) >= 1000 * mul_fixed(a, c),
        (high - 1) * (mul_fixed(b, c) - mul_fixed(a, c)) <= 1000 * mul_fixed(a, c),
{
    let s = scale();
    let x = mul_fixed(a, c);
    let y = mul_fixed(b, c);
    lemma_mul_fixed_bounds(a, c);
    lemma_mul_fixed_bounds(b, c);
    lemma_mul_fixed_monotone(a, b, c);
    lemma_mul_fixed_grows(a, c);
    // The products lie at least as far apart as the factors did.
    assert((y - x + 1) * s > (b - a) * c) by (nonlinear_arith)
        requires
            x * s <= a * c,
            b * c < (y + 1) * s,
    ;
    assert(low * ((b - a) * c) >= 1000 * (a * c)) by (nonlinear_arith)
        requires
            low * (b - a) >= 1000 * a,
            c >= 0,
    ;
    assert(low * ((y - x + 1) * s) > low * ((b - a) * c)) by (nonlinear_arith)
        requires
            (y - x + 1) * s > (b - a) * c,
            low >= 1,
    ;
    assert(1000 * (a * c) >= 1000 * (x * s)) by (nonlinear_arith)
        requires
            x * s <= a * c,
    ;
    assert(low * (y - x + 1) > 1000 * x) by (nonlinear_arith)
        requires
            low * ((y - x + 1) * s) > 1000 * (x * s),
            s > 0,
    ;
    assert(y - x >= 40_000_000) by (nonlinear_arith)
        requires
            low * (y - x + 1) > 1000 * x,
            x >= 1_000_000_000_000_000_000,
            1 <= low <= 20000600,
            y >= x,
    ;
    assert((low + 1) * (y - x) >= 1000 * x) by (nonlinear_arith)
        requires
            low * (y - x + 1) > 1000 * x,
            y - x >= low,
    ;
    // And no further apart than the factors allowed.
    assert((y - x - 1) * s < (b - a) * c) by (nonlinear_arith)
        requires
            y * s <= b * c,
            a * c < (x + 1) * s,
    ;
    assert(high * ((b - a) * c) <= 1000 * (a * c)) by (nonlinear_arith)
        requires
            high * (b - a) <= 1000 * a,
            c >= 0,
    ;
    assert(high * ((y - x - 1) * s) < high * ((b - a) * c)) by (nonlinear_arith)
        requires
            (y - x - 1) * s < (b - a) * c,
            high >= 1,
    ;
    assert(1000 * (a * c) < 1000 * ((x + 1) * s)) by (nonlinear_arith)
        requires
            a * c < (x + 1) * s,
    ;
    assert(high * (y - x - 1) < 1000 * (x + 1)) by (nonlinear_arith)
        requires
            high * ((y - x - 1) * s) < 1000 * ((x + 1) * s),
            s > 0,
    ;
    assert((high - 1) * (y - x) <= 1000 * x) by (nonlinear_arith)
        requires
            high * (y - x - 1) < 1000 * (x + 1),
            y - x >= 40_000_000,
            1 <= high <= 20000600,
    ;
}

/// The prices of `n` and `n + 1` over the bits below `bits`. Unless all those
/// bits of `n` are set, the price of `n + 1` is the larger by between one
/// part in 20001 and one part in 20000; if they are, the price of `n` is the
/// all-ones price and that of `n + 1` is one.
pub proof fn lemma_successor_price(n: nat, bits: nat)
    requires
        bits <= 20,
    ensures
        n % pow2(bits) + 1 < pow2(bits) ==> {
            &&& price_of_low_bits(n, bits) <= price_of_low_bits(n + 1, bits)
            &&& (20000500 + bits) * (price_of_low_bits(n + 1, bits) - price_of_low_bits(
                n,
                bits,
            )) >= 1000 * price_of_low_bits(n, bits)
            &&& (20000490 - bits) * (price_of_low_bits(n + 1, bits) - price_of_low_bits(
                n,
                bits,
            )) <= 1000 * price_of_low_bits(n, bits)
        },
        n % pow2(bits) + 1 == pow2(bits) ==> {
            &&& price_of_low_bits(n, bits) == all_ones_price(bits)
            &&& price_of_low_bits(n + 1, bits) == scale()
        },
    decreases bits,
{
    if bits == 0 {
        lemma2_to64();
    } else {
        let bit = (bits - 1) as nat;
        let a = price_of_low_bits(n, bit);
        let b = price_of_low_bits(n + 1, bit);
        let c = ratio(bit);
        let low = 20000500 + bit as int;
        let high = 20000490 - bit as int;
        lemma_successor_price(n, bit);
        lemma_successor_bits(n, bit);
        lemma_price_range(n, bit);
        lemma_price_range(n + 1, bit);
        lemma_ratio_above_one(bit);
        if n % pow2(bit) + 1 < pow2(bit) {
            assert(has_bit(n + 1, bit) == has_bit(n, bit));
            if has_bit(n, bit) {
                lemma_gap_survives_factor(a, b, c, low, high);
            } else {
                assert((low + 1) * (b - a) >= low * (b - a) && (high - 1) * (b - a) <= high * (b
                    - a)) by (nonlinear_arith)
                    requires
                        b >= a,
                        low >= 0,
                        high >= 0,
                ;
            }
        } else {
            if has_bit(n, bit) {
                assert(!has_bit(n + 1, bit));
                lemma_all_ones_step(bit);
            } else {
                assert(has_bit(n + 1, bit));
                lemma_mul_fixed_one(c);
                lemma_all_ones_gap(bit);
                assert((low + 1) * (c - a) >= 20000500 * (c - a) && (high - 1) * (c - a)
                    <= 20000490 * (c - a)) by (nonlinear_arith)
                    requires
                        c >= a,
                        low >= 20000500,
                        high <= 20000490,
                ;
            }
        }
    }
}

/// Over magnitudes below `2^20`, the price of `n + 1` exceeds that of `n` by
/// between one part in 20001 and one part in 20000.
pub proof fn lemma_price_step(n: nat)
    requires
        n + 1 < pow2(20),
    ensures
        scale() <= price_of_magnitude(n) < price_of_magnitude(n + 1),
        20001 * (price_of_magnitude(n + 1) - price_of_magnitude(n)) >= price_of_magnitude(n),
        20000 * (price_of_magnitude(n + 1) - price_of_magnitude(n)) <= price_of_magnitude(n),
{
    let a = price_of_magnitude(n);
    let b = price_of_magnitude(n + 1);
    lemma_successor_price(n, 20);
    lemma_small_mod(n, pow2(20));
    lemma_price_range(n, 20);
    assert(20001 * (b - a) >= a && 20000 * (b - a) <= a) by (nonlinear_arith)
        requires
            20000520 * (b - a) >= 1000 * a,
            20000470 * (b - a) <= 1000 * a,
            b >= a,
    ;
}

/// Over magnitudes below `2^20`, the price grows strictly with the magnitude.
pub proof fn lemma_price_increasing(m: nat, n: nat)
    requires
        m < n < pow2(20),
    ensures
        price_of_magnitude(m) < price_of_magnitude(n),
    decreases n - m,
{
    lemma_price_step((n - 1) as nat);
    if m + 1 < n {
        lemma_price_increasing(m, (n - 1) as nat);
    }
}

} // verus!
