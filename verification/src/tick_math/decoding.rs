//! What the magnitude read off a price says about that price.

use crate::decimal::{div_fixed, mul_fixed, scale};
use crate::fixed_point::{lemma_div_fixed_bounds, lemma_div_fixed_range, lemma_mul_fixed_bounds, lemma_mul_fixed_monotone, lemma_mul_fixed_one};
use crate::tick_math::encoding::{lemma_price_range, lemma_price_step, lemma_ratio_above_one, lemma_successor_bits};
use crate::tick_math::{greedy_magnitude, has_bit, price_of_low_bits, price_of_magnitude, ratio};
use vstd::arithmetic::div_mod::{lemma_basic_div, lemma_fundamental_div_mod_converse, lemma_small_mod};
use vstd::arithmetic::power2::{lemma2_to64, lemma_pow2_pos, lemma_pow2_strictly_increases, lemma_pow2_unfold, pow2};
use vstd::prelude::*;

verus! {

/// The price over the bits below `bits` depends on those bits alone.
pub proof fn lemma_price_of_remainder(n: nat, bits: nat)
    ensures
        pow2(bits) > 0,
        price_of_low_bits(n, bits) == price_of_low_bits(n % pow2(bits), bits),
    decreases bits,
{
    lemma_pow2_pos(bits);
    if bits > 0 {
        let bit = (bits - 1) as nat;
        let d = pow2(bit);
        let r = n % pow2(bits);
        let m = n % d;
        let odd = (n / d) % 2;
        lemma_successor_bits(n, bit);
        assert(r == m + d * odd);
        assert(d * odd == odd * d) by (nonlinear_arith);
        lemma_fundamental_div_mod_converse(r as int, d as int, odd as int, m as int);
        assert(has_bit(r, bit) == has_bit(n, bit));
        lemma_price_of_remainder(n, bit);
        lemma_price_of_remainder(r, bit);
    }
}

/// Bits at and above `low` that are not set leave the price as it is.
pub proof fn lemma_price_ignores_clear_bits(n: nat, low: nat, bits: nat)
    requires
        n < pow2(low),
        low <= bits,
    ensures
        price_of_low_bits(n, bits) == price_of_low_bits(n, low),
    decreases bits,
{
    if bits > low {
        let bit = (bits - 1) as nat;
        lemma_price_ignores_clear_bits(n, low, bit);
        if low < bit {
            lemma_pow2_strictly_increases(low, bit);
        }
        lemma_basic_div(n as int, pow2(bit) as int);
    }
}

/// Setting a bit above all the bits of `rest` multiplies the price by that
/// bit's ratio.
pub proof fn lemma_price_with_top_bit(rest: nat, bit: nat)
    requires
        rest < pow2(bit),
        bit < 20,
    ensures
        pow2(bit) + rest < pow2(bit + 1),
        has_bit(pow2(bit) + rest, bit),
        price_of_low_bits(pow2(bit) + rest, bit) == price_of_low_bits(rest, bit),
        price_of_magnitude(pow2(bit) + rest) == mul_fixed(price_of_magnitude(rest), ratio(bit)),
{
    let n = pow2(bit) + rest;
    lemma_pow2_unfold(bit + 1);
    lemma_fundamental_div_mod_converse(n as int, pow2(bit) as int, 1, rest as int);
    lemma_price_of_remainder(n, bit);
    lemma_small_mod(rest, pow2(bit));
    lemma_price_of_remainder(rest, bit);
    lemma_price_ignores_clear_bits(n, bit + 1, 20);
    lemma_price_ignores_clear_bits(rest, bit, 20);
}

/// The magnitude read off a price of at least one has no bit at or above
/// `bits`, and the price of that magnitude does not exceed the price it was
/// read off.
pub proof fn lemma_greedy_below(price: int, bits: nat)
    requires
        price >= scale(),
        bits <= 20,
    ensures
        greedy_magnitude(price, bits) < pow2(bits),
        price_of_low_bits(greedy_magnitude(price, bits), bits) <= price,
    decreases bits,
{
    lemma_pow2_pos(bits);
    if bits > 0 {
        let bit = (bits - 1) as nat;
        let c = ratio(bit);
        let n = greedy_magnitude(price, bits);
        lemma_pow2_unfold(bits);
        lemma_ratio_above_one(bit);
        if price >= c {
            let q = div_fixed(price, c);
            let rest = greedy_magnitude(q, bit);
            lemma_div_fixed_range(price, c);
            lemma_div_fixed_bounds(price, c);
            lemma_greedy_below(q, bit);
            let low = price_of_low_bits(rest, bit);
            lemma_fundamental_div_mod_converse(n as int, pow2(bit) as int, 1, rest as int);
            lemma_price_of_remainder(n, bit);
            lemma_small_mod(rest, pow2(bit));
            lemma_price_of_remainder(rest, bit);
            lemma_price_range(rest, bit);
            lemma_mul_fixed_monotone(low, q, c);
            lemma_mul_fixed_bounds(q, c);
            assert(mul_fixed(q, c) <= price) by (nonlinear_arith)
                requires
                    mul_fixed(q, c) * scale() <= q * c,
                    q * c <= price * scale(),
                    scale() > 0,
            ;
        } else {
            lemma_greedy_below(price, bit);
            lemma_basic_div(n as int, pow2(bit) as int);
        }
    }
}

/// The product of the ratios of the set bits of `n` below `bits`, rounded up
/// past the next unit after every factor: a bound from above on every price
/// whose greedy magnitude falls short of `n`.
pub open spec fn price_rounded_up(n: nat, bits: nat) -> int
    decreases bits,
{
    if bits == 0 {
        scale()
    } else {
        let below = price_rounded_up(n, (bits - 1) as nat);
        if has_bit(n, (bits - 1) as nat) {
            mul_fixed(below, ratio((bits - 1) as nat)) + 1
        } else {
            below
        }
    }
}

/// The rounded-up price over the bits below `bits` depends on those bits
/// alone.
proof fn lemma_rounded_up_of_remainder(n: nat, bits: nat)
    ensures
        pow2(bits) > 0,
        price_rounded_up(n, bits) == price_rounded_up(n % pow2(bits), bits),
    decreases bits,
{
    lemma_pow2_pos(bits);
    if bits > 0 {
        let bit = (bits - 1) as nat;
        let d = pow2(bit);
        let r = n % pow2(bits);
        let m = n % d;
        let odd = (n / d) % 2;
        lemma_successor_bits(n, bit);
        assert(d * odd == odd * d) by (nonlinear_arith);
        lemma_fundamental_div_mod_converse(r as int, d as int, odd as int, m as int);
        assert(has_bit(r, bit) == has_bit(n, bit));
        lemma_rounded_up_of_remainder(n, bit);
        lemma_rounded_up_of_remainder(r, bit);
    }
}

/// With no bit set, the rounded-up price is one.
proof fn lemma_rounded_up_of_zero(bits: nat)
    ensures
        price_rounded_up(0, bits) == scale(),
    decreases bits,
{
    if bits > 0 {
        lemma_rounded_up_of_zero((bits - 1) as nat);
        lemma_pow2_pos((bits - 1) as nat);
        lemma_basic_div(0, pow2((bits - 1) as nat) as int);
    }
}

/// Rounding up adds less than `bits` parts in `10^17` to the price.
pub proof fn lemma_rounding_up_adds_little(n: nat, bits: nat)
    requires
        bits <= 20,
    ensures
        price_of_low_bits(n, bits) <= price_rounded_up(n, bits),
        100_000_000_000_000_000 * (price_rounded_up(n, bits) - price_of_low_bits(n, bits))
            <= bits * price_of_low_bits(n, bits),
    decreases bits,
{
    if bits > 0 {
        let bit = (bits - 1) as nat;
        let a = price_of_low_bits(n, bit);
        let u = price_rounded_up(n, bit);
        let c = ratio(bit);
        let k = bit as int;
        lemma_rounding_up_adds_little(n, bit);
        lemma_price_range(n, bit);
        lemma_price_range(n, bits);
        lemma_ratio_above_one(bit);
        if has_bit(n, bit) {
            let x = mul_fixed(a, c);
            let y = mul_fixed(u, c);
            let s = scale();
            lemma_mul_fixed_bounds(a, c);
            lemma_mul_fixed_bounds(u, c);
            lemma_mul_fixed_monotone(a, u, c);
            assert((y - x - 1) * s < (u - a) * c) by (nonlinear_arith)
                requires
                    y * s <= u * c,
                    a * c < (x + 1) * s,
            ;
            assert(100_000_000_000_000_000 * ((u - a) * c) <= k * (a * c)) by (nonlinear_arith)
                requires
                    100_000_000_000_000_000 * (u - a) <= k * a,
                    c >= 0,
            ;
            assert(k * (a * c) <= k * ((x + 1) * s)) by (nonlinear_arith)
                requires
                    a * c < (x + 1) * s,
                    k >= 0,
            ;
            assert(100_000_000_000_000_000 * ((y - x - 1) * s) <= 100_000_000_000_000_000 * ((u
                - a) * c)) by (nonlinear_arith)
                requires
                    (y - x - 1) * s < (u - a) * c,
            ;
            assert(100_000_000_000_000_000 * (y - x - 1) <= k * (x + 1)) by (nonlinear_arith)
                requires
                    100_000_000_000_000_000 * ((y - x - 1) * s) <= k * ((x + 1) * s),
                    s > 0,
            ;
            assert(100_000_000_000_000_000 * (y + 1 - x) <= (k + 1) * x) by (nonlinear_arith)
                requires
                    100_000_000_000_000_000 * (y - x - 1) <= k * (x + 1),
                    x >= 1_000_000_000_000_000_000,
                    0 <= k <= 20,
            ;
        } else {
            assert(k * a <= (k + 1) * a) by (nonlinear_arith)
                requires
                    a >= 0,
            ;
        }
    }
}

/// A price of at least one lies below the rounded-up price of the successor of
/// the magnitude read off it, unless all the bits of that magnitude are set.
pub proof fn lemma_greedy_above(price: int, bits: nat)
    requires
        price >= scale(),
        bits <= 20,
        greedy_magnitude(price, bits) + 1 < pow2(bits),
    ensures
        price < price_rounded_up(greedy_magnitude(price, bits) + 1, bits),
    decreases bits,
{
    if bits > 0 {
        let bit = (bits - 1) as nat;
        let c = ratio(bit);
        let n = greedy_magnitude(price, bits);
        lemma_pow2_pos(bit);
        lemma_pow2_unfold(bits);
        lemma_ratio_above_one(bit);
        lemma_greedy_below(price, bits);
        if price >= c {
            let q = div_fixed(price, c);
            let rest = greedy_magnitude(q, bit);
            lemma_div_fixed_range(price, c);
            lemma_div_fixed_bounds(price, c);
            lemma_greedy_above(q, bit);
            let above = price_rounded_up(rest + 1, bit);
            lemma_fundamental_div_mod_converse(
                (n + 1) as int,
                pow2(bit) as int,
                1,
                (rest + 1) as int,
            );
            lemma_rounded_up_of_remainder(n + 1, bit);
            lemma_small_mod(rest + 1, pow2(bit));
            lemma_rounded_up_of_remainder(rest + 1, bit);
            lemma_mul_fixed_bounds(above, c);
            assert(price <= mul_fixed(above, c)) by (nonlinear_arith)
                requires
                    price * scale() < (q + 1) * c,
                    q + 1 <= above,
                    above * c < (mul_fixed(above, c) + 1) * scale(),
                    c > 0,
                    scale() > 0,
            ;
        } else {
            lemma_greedy_below(price, bit);
            if n + 1 < pow2(bit) {
                lemma_greedy_above(price, bit);
                lemma_basic_div((n + 1) as int, pow2(bit) as int);
            } else {
                lemma_fundamental_div_mod_converse((n + 1) as int, pow2(bit) as int, 1, 0);
                lemma_rounded_up_of_remainder(n + 1, bit);
                lemma_rounded_up_of_zero(bit);
                lemma_mul_fixed_one(c);
            }
        }
    } else {
        lemma2_to64();
    }
}

/// A price of at least one lies below the price of the magnitude two above the
/// one read off it.
pub proof fn lemma_greedy_within_two(price: int)
    requires
        price >= scale(),
        greedy_magnitude(price, 20) + 2 < pow2(20),
    ensures
        price < price_of_magnitude(greedy_magnitude(price, 20) + 2),
{
    let n = greedy_magnitude(price, 20);
    let a = price_of_magnitude(n + 1);
    let u = price_rounded_up(n + 1, 20);
    let b = price_of_magnitude(n + 2);
    lemma_greedy_above(price, 20);
    lemma_rounding_up_adds_little(n + 1, 20);
    lemma_price_step(n + 1);
    assert(u <= b) by (nonlinear_arith)
        requires
            100_000_000_000_000_000 * (u - a) <= 20 * a,
            20001 * (b - a) >= a,
            a >= 0,
    ;
}

} // verus!
