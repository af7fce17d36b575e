//! Conversion between tick indices and square-root prices.
//!
//! A tick `t` stands for the price `1.0001^t`, so its square-root price is
//! `sqrt(1.0001)^t`. The square-root price of a tick is the product, rounded
//! after every factor, of the table entries `sqrt(1.0001)^(2^b)` for the set
//! bits `b` of `|t|`, inverted for a negative tick.

pub mod boundary;
pub mod decoding;
pub mod encoding;
pub mod inverse;
pub mod laws;

use crate::decimal::{checked_div, checked_mul, div_fixed, half_modulus, mul_fixed, scale, Decimal};
use crate::fixed_point::{lemma_div_fixed_bounds, lemma_div_fixed_range};
use crate::tick_math::boundary::{lemma_corrected_tick_in_bounds, lemma_greedy_of_supported_inverse, lemma_greedy_of_supported_price};
use crate::tick_math::encoding::{lemma_price_range, lemma_ratio_above_one, lemma_successor_bits};
use crate::tick_math::laws::lemma_corrected_tick_steps_down;
use vstd::arithmetic::power2::{lemma2_to64, lemma_pow2_unfold, pow2};
use vstd::prelude::*;

verus! {

/// The lowest tick whose square-root price can be told from its neighbours'.
pub const MIN_TICK: i32 = -631042;

/// The highest supported tick.
pub const MAX_TICK: i32 = 931709;

/// The number of binary digits of a tick's magnitude.
pub const TICK_BITS: u32 = 20;

/// Whether `tick` lies in `[MIN_TICK, MAX_TICK]`.
pub open spec fn tick_in_bounds(tick: int) -> bool {
    MIN_TICK <= tick <= MAX_TICK
}

/// The square-root price of `MIN_TICK`, in units: `0.00000000000001985`.
pub open spec fn min_sqrt_price() -> int {
    19850
}

/// The square-root price of `MAX_TICK`, in units:
/// `170134484377190040957.155711420855095752`.
pub open spec fn max_sqrt_price() -> int {
    170134484377190040957155711420855095752
}

/// Whether `price` lies in `[min_sqrt_price(), max_sqrt_price()]`.
pub open spec fn sqrt_price_in_bounds(price: int) -> bool {
    min_sqrt_price() <= price <= max_sqrt_price()
}

/// `sqrt(1.0001)^(2^bit)` in units, rounded to 18 digits, for `bit < 20`.
pub open spec fn ratio(bit: nat) -> int {
    if bit == 0 {
        1000049998750062496
    } else if bit == 1 {
        1000100000000000000
    } else if bit == 2 {
        1000200010000000000
    } else if bit == 3 {
        1000400060004000093
    } else if bit == 4 {
        1000800280056006986
    } else if bit == 5 {
        1001601200560182014
    } else if bit == 6 {
        1003204964963597955
    } else if bit == 7 {
        1006420201727613800
    } else if bit == 8 {
        1012881622445450855
    } else if bit == 9 {
        1025929181087728853
    } else if bit == 10 {
        1052530684607337941
    } else if bit == 11 {
        1107820842039991493
    } else if bit == 12 {
        1227267018058195782
    } else if bit == 13 {
        1506184333613455851
    } else if bit == 14 {
        2268591246822610072
    } else if bit == 15 {
        5146506245160164533
    } else if bit == 16 {
        26486526531472575563
    } else if bit == 17 {
        701536087702400664335
    } else if bit == 18 {
        492152882348790396620919
    } else {
        242214459604222321943471435452
    }
}

/// Whether binary digit `bit` of `n` is one.
pub open spec fn has_bit(n: nat, bit: nat) -> bool {
    (n / pow2(bit)) % 2 == 1
}

/// The product of the ratios of the set bits of `n` below `bits`, taken from
/// the lowest bit up and rounded down after every factor.
pub open spec fn price_of_low_bits(n: nat, bits: nat) -> int
    decreases bits,
{
    if bits == 0 {
        scale()
    } else {
        let below = price_of_low_bits(n, (bits - 1) as nat);
        if has_bit(n, (bits - 1) as nat) {
            mul_fixed(below, ratio((bits - 1) as nat))
        } else {
            below
        }
    }
}

/// The square-root price of a tick of magnitude `n < 2^20` that is not
/// negative.
pub open spec fn price_of_magnitude(n: nat) -> int {
    price_of_low_bits(n, 20)
}

/// The square-root price of `tick`, in units.
pub open spec fn sqrt_price_of_tick(tick: int) -> int {
    if tick >= 0 {
        price_of_magnitude(tick as nat)
    } else {
        div_fixed(scale(), price_of_magnitude((-tick) as nat))
    }
}

/// The magnitude that is read off `price` over the bits below `bits`: from the
/// highest bit down, each ratio that `price` reaches is divided out, rounding
/// down, and its bit is set.
pub open spec fn greedy_magnitude(price: int, bits: nat) -> nat
    decreases bits,
{
    if bits == 0 {
        0
    } else {
        let bit = (bits - 1) as nat;
        if price >= ratio(bit) {
            pow2(bit) + greedy_magnitude(div_fixed(price, ratio(bit)), bit)
        } else {
            greedy_magnitude(price, bit)
        }
    }
}

/// The tick that is read off `price` before it is corrected: the greedy
/// magnitude of `price`, or minus that of its inverse when `price` is below
/// one.
pub open spec fn candidate_tick(price: int) -> int {
    if price < scale() {
        -(greedy_magnitude(div_fixed(scale(), price), 20) as int)
    } else {
        greedy_magnitude(price, 20) as int
    }
}

/// The candidate corrected by its own square-root price: the candidate where
/// that is `price`, the tick below it where that is above `price`, and the
/// tick above it otherwise. It lies at or one above the tick at or below
/// `price`.
pub open spec fn corrected_tick(price: int) -> int {
    let candidate = candidate_tick(price);
    let encoded = sqrt_price_of_tick(candidate);
    if encoded == price {
        candidate
    } else if encoded > price {
        candidate - 1
    } else {
        candidate + 1
    }
}

/// Whether `tick` is the greatest supported tick whose square-root price does
/// not exceed `price`.
pub open spec fn is_tick_at_or_below(tick: int, price: int) -> bool {
    &&& tick_in_bounds(tick)
    &&& sqrt_price_of_tick(tick) <= price
    &&& tick < MAX_TICK ==> price < sqrt_price_of_tick(tick + 1)
}

/// The greatest supported tick whose square-root price does not exceed
/// `price`.
pub open spec fn tick_at_or_below(price: int) -> int {
    choose|tick: int| is_tick_at_or_below(tick, price)
}

/// Why a conversion was refused.
#[derive(Clone, Copy, Debug, PartialEq, Eq, Structural)]
pub enum TickMathError {
    /// The tick or the square-root price lies outside the supported range.
    OutOfBounds,
}

/// The lowest supported square-root price, that of `MIN_TICK`.
pub fn min_price() -> (price: Decimal)
    ensures
        price@ == min_sqrt_price(),
{
    Decimal { lo: 19850, mid: 0, hi: 0 }
}

/// The highest supported square-root price, that of `MAX_TICK`.
pub fn max_price() -> (price: Decimal)
    ensures
        price@ == max_sqrt_price(),
{
    Decimal { lo: 4809668506064654792, mid: 9223008878822527810, hi: 0 }
}

/// The table entry `sqrt(1.0001)^(2^bit)`.
fn ratio_at(bit: u32) -> (c: Decimal)
    requires
        bit < TICK_BITS,
    ensures
        c@ == ratio(bit as nat),
{
    match bit {
        0 => Decimal { lo: 1000049998750062496, mid: 0, hi: 0 },
        1 => Decimal { lo: 1000100000000000000, mid: 0, hi: 0 },
        2 => Decimal { lo: 1000200010000000000, mid: 0, hi: 0 },
        3 => Decimal { lo: 1000400060004000093, mid: 0, hi: 0 },
        4 => Decimal { lo: 1000800280056006986, mid: 0, hi: 0 },
        5 => Decimal { lo: 1001601200560182014, mid: 0, hi: 0 },
        6 => Decimal { lo: 1003204964963597955, mid: 0, hi: 0 },
        7 => Decimal { lo: 1006420201727613800, mid: 0, hi: 0 },
        8 => Decimal { lo: 1012881622445450855, mid: 0, hi: 0 },
        9 => Decimal { lo: 1025929181087728853, mid: 0, hi: 0 },
        10 => Decimal { lo: 1052530684607337941, mid: 0, hi: 0 },
        11 => Decimal { lo: 1107820842039991493, mid: 0, hi: 0 },
        12 => Decimal { lo: 1227267018058195782, mid: 0, hi: 0 },
        13 => Decimal { lo: 1506184333613455851, mid: 0, hi: 0 },
        14 => Decimal { lo: 2268591246822610072, mid: 0, hi: 0 },
        15 => Decimal { lo: 5146506245160164533, mid: 0, hi: 0 },
        16 => Decimal { lo: 8039782457763023947, mid: 1, hi: 0 },
        17 => Decimal { lo: 559812901437702927, mid: 38, hi: 0 },
        18 => Decimal { lo: 12197206293269057655, mid: 26679, hi: 0 },
        _ => Decimal { lo: 9500346154952666812, mid: 13130472165, hi: 0 },
    }
}

/// The square-root price of `tick`.
///
/// The ratios of the set bits of `|tick|` are multiplied up from the lowest
/// bit, and the product is inverted for a negative tick. A tick outside
/// `[MIN_TICK, MAX_TICK]` is refused.
pub fn sqrt_price_at_tick(tick: i32) -> (r: Result<Decimal, TickMathError>)
    ensures
        r.is_ok() == tick_in_bounds(tick as int),
        r matches Ok(price) ==> price@ == sqrt_price_of_tick(tick as int),
        r matches Err(e) ==> e == TickMathError::OutOfBounds,
{
    if tick < MIN_TICK || tick > MAX_TICK {
        return Err(TickMathError::OutOfBounds);
    }
    let magnitude: u32 = if tick >= 0 {
        tick as u32
    } else {
        (-tick) as u32
    };
    let mut price = Decimal::one();
    let mut rest: u32 = magnitude;
    let mut bit: u32 = 0;
    proof {
        lemma2_to64();
    }
    while bit < TICK_BITS
        invariant
            bit <= TICK_BITS,
            magnitude < pow2(20),
            rest == magnitude as nat / pow2(bit as nat),
            price@ == price_of_low_bits(magnitude as nat, bit as nat),
        decreases TICK_BITS - bit,
    {
        proof {
            lemma_successor_bits(magnitude as nat, bit as nat);
            lemma_price_range(magnitude as nat, bit as nat);
            lemma_price_range(magnitude as nat, (bit + 1) as nat);
        }
        if rest % 2 == 1 {
            price = checked_mul(price, ratio_at(bit)).unwrap();
        }
        rest = rest / 2;
        bit = bit + 1;
    }
    if tick < 0 {
        proof {
            lemma_price_range(magnitude as nat, 20);
            lemma_div_fixed_bounds(scale(), price@);
            assert(div_fixed(scale(), price@) <= scale()) by (nonlinear_arith)
                requires
                    div_fixed(scale(), price@) * price@ <= scale() * scale(),
                    price@ >= scale(),
                    scale() > 0,
                    div_fixed(scale(), price@) >= 0,
            ;
        }
        price = checked_div(Decimal::one(), price).unwrap();
    }
    Ok(price)
}

/// The corrected candidate of `sqrt_price`.
///
/// A candidate is read off the price, or off its inverse when the price is
/// below one: from the highest bit down, each ratio that the price reaches is
/// divided out and its bit is set. The candidate is then corrected by its own
/// square-root price: it stands when that equals `sqrt_price`, gives way to
/// the tick below when that is above `sqrt_price`, and to the tick above
/// otherwise.
fn corrected_tick_at(sqrt_price: Decimal) -> (r: Result<i32, TickMathError>)
    ensures
        r.is_ok() == sqrt_price_in_bounds(sqrt_price@),
        r matches Ok(tick) ==> tick == corrected_tick(sqrt_price@) && tick_in_bounds(tick as int),
        r matches Err(e) ==> e == TickMathError::OutOfBounds,
{
    if sqrt_price.lt(&min_price()) || sqrt_price.gt(&max_price()) {
        return Err(TickMathError::OutOfBounds);
    }
    let one = Decimal::one();
    let below_one = sqrt_price.lt(&one);
    proof {
        if below_one {
            lemma_greedy_of_supported_inverse(sqrt_price@);
        } else {
            lemma_greedy_of_supported_price(sqrt_price@);
        }
    }
    let start = if below_one {
        checked_div(one, sqrt_price).unwrap()
    } else {
        sqrt_price
    };
    let mut rest = start;
    let mut magnitude: i32 = 0;
    let mut weight: i32 = 524288;
    let mut bits: u32 = TICK_BITS;
    proof {
        lemma2_to64();
    }
    while bits > 0
        invariant
            bits <= TICK_BITS,
            scale() <= rest@ <= start@,
            start@ < half_modulus(),
            0 <= magnitude,
            magnitude + greedy_magnitude(rest@, bits as nat) == greedy_magnitude(start@, 20),
            greedy_magnitude(start@, 20) <= 931709,
            bits > 0 ==> weight == pow2((bits - 1) as nat),
        decreases bits,
    {
        let bit = bits - 1;
        let c = ratio_at(bit);
        proof {
            lemma_ratio_above_one(bit as nat);
            if bit > 0 {
                lemma_pow2_unfold(bit as nat);
            }
            if rest@ >= c@ {
                lemma_div_fixed_range(rest@, c@);
            }
            assert(greedy_magnitude(rest@, 0) == 0);
            assert(greedy_magnitude(div_fixed(rest@, c@), 0) == 0);
        }
        if rest.ge(&c) {
            if bit > 0 {
                rest = checked_div(rest, c).unwrap();
            }
            magnitude = magnitude + weight;
        }
        weight = weight / 2;
        bits = bit;
    }
    let candidate = if below_one {
        -magnitude
    } else {
        magnitude
    };
    match sqrt_price_at_tick(candidate) {
        Ok(encoded) => {
            proof {
                lemma_corrected_tick_in_bounds(sqrt_price@);
            }
            if encoded.eq(&sqrt_price) {
                Ok(candidate)
            } else if encoded.gt(&sqrt_price) {
                Ok(candidate - 1)
            } else {
                Ok(candidate + 1)
            }
        },
        Err(e) => Err(e),
    }
}

/// The tick of `sqrt_price`: the greatest tick whose square-root price does
/// not exceed it.
///
/// The corrected candidate of the price is taken, or the tick below it where
/// the square-root price of the corrected candidate is above `sqrt_price`. A
/// price outside `[min_price(), max_price()]` is refused.
pub fn tick_at_sqrt_price(sqrt_price: Decimal) -> (r: Result<i32, TickMathError>)
    ensures
        r.is_ok() == sqrt_price_in_bounds(sqrt_price@),
        r matches Ok(tick) ==> {
            &&& tick == tick_at_or_below(sqrt_price@)
            &&& tick_in_bounds(tick as int)
            &&& sqrt_price_of_tick(tick as int) <= sqrt_price@
            &&& tick < MAX_TICK ==> sqrt_price@ < sqrt_price_of_tick(tick + 1)
        },
        r matches Err(e) ==> e == TickMathError::OutOfBounds,
{
    let tick = corrected_tick_at(sqrt_price)?;
    proof {
        lemma_corrected_tick_steps_down(sqrt_price@);
    }
    let encoded = sqrt_price_at_tick(tick)?;
    if encoded.le(&sqrt_price) {
        Ok(tick)
    } else {
        Ok(tick - 1)
    }
}

} // verus!
