//! What holds of the two conversions over the whole supported range.

use crate::decimal::{div_fixed, scale};
use crate::fixed_point::lemma_div_fixed_bounds;
use crate::tick_math::boundary::{lemma_corrected_tick_in_bounds, lemma_greedy_of_supported_inverse, lemma_greedy_of_supported_price, lemma_price_of_max_magnitude, lemma_price_of_min_magnitude, lemma_price_of_zero};
use crate::tick_math::decoding::lemma_greedy_within_two;
use crate::tick_math::encoding::{lemma_price_increasing, lemma_price_step};
use crate::tick_math::inverse::{inverse_price, lemma_inverse_decreasing, lemma_inverse_is};
use crate::tick_math::{candidate_tick, greedy_magnitude, max_sqrt_price, MAX_TICK, min_sqrt_price, MIN_TICK, price_of_magnitude, sqrt_price_in_bounds, sqrt_price_of_tick, tick_at_or_below, tick_in_bounds, corrected_tick, is_tick_at_or_below};
use vstd::arithmetic::power2::lemma2_to64;
use vstd::prelude::*;

verus! {

/// The square-root price of tick 0 is one, that of `MIN_TICK` is the lowest
/// supported price, and that of `MAX_TICK` is the highest.
pub proof fn lemma_prices_at_the_ends()
    ensures
        sqrt_price_of_tick(0) == scale(),
        sqrt_price_of_tick(MIN_TICK as int) == min_sqrt_price(),
        sqrt_price_of_tick(MAX_TICK as int) == max_sqrt_price(),
{
    lemma_price_of_zero();
    lemma_price_of_min_magnitude();
    lemma_price_of_max_magnitude();
}

/// The square-root price of a tick that is not positive is the inverse of the
/// price of its magnitude.
pub proof fn lemma_price_of_negative_tick(tick: int)
    requires
        tick <= 0,
    ensures
        sqrt_price_of_tick(tick) == inverse_price((-tick) as nat),
{
    if tick == 0 {
        lemma_price_of_zero();
        assert(scale() * scale() < (scale() + 1) * scale()) by (nonlinear_arith);
        lemma_inverse_is(scale(), scale());
    }
}

/// Of two supported ticks, the lower has the lower square-root price.
pub proof fn lemma_sqrt_price_increasing(low: int, high: int)
    requires
        tick_in_bounds(low),
        tick_in_bounds(high),
        low < high,
    ensures
        sqrt_price_of_tick(low) < sqrt_price_of_tick(high),
{
    lemma2_to64();
    if low >= 0 {
        lemma_price_increasing(low as nat, high as nat);
    } else if high <= 0 {
        lemma_price_of_negative_tick(low);
        lemma_price_of_negative_tick(high);
        lemma_inverse_decreasing((-high) as nat, (-low) as nat);
    } else {
        lemma_price_of_negative_tick(low);
        lemma_price_of_negative_tick(0);
        lemma_inverse_decreasing(0, (-low) as nat);
        lemma_price_of_zero();
        if high > 0 {
            lemma_price_increasing(0, high as nat);
        }
    }
}

/// The square-root price of a supported tick is a supported price.
pub proof fn lemma_sqrt_price_in_bounds(tick: int)
    requires
        tick_in_bounds(tick),
    ensures
        sqrt_price_in_bounds(sqrt_price_of_tick(tick)),
{
    lemma_prices_at_the_ends();
    if tick > -631042 {
        lemma_sqrt_price_increasing(-631042, tick);
    }
    if tick < 931709 {
        lemma_sqrt_price_increasing(tick, 931709);
    }
}

/// At most one tick is the greatest whose square-root price does not exceed
/// a price.
pub proof fn lemma_tick_at_or_below_is_unique(first: int, second: int, price: int)
    requires
        is_tick_at_or_below(first, price),
        is_tick_at_or_below(second, price),
    ensures
        first == second,
{
    if first < second {
        if first + 1 < second {
            lemma_sqrt_price_increasing(first + 1, second);
        }
    } else if second < first {
        if second + 1 < first {
            lemma_sqrt_price_increasing(second + 1, first);
        }
    }
}

/// The corrected candidate of a supported price, or the tick below it where
/// its square-root price is above the price, is the greatest tick whose
/// square-root price does not exceed the price.
pub proof fn lemma_corrected_tick_steps_down(price: int)
    requires
        sqrt_price_in_bounds(price),
    ensures
        tick_in_bounds(corrected_tick(price)),
        sqrt_price_of_tick(corrected_tick(price)) <= price ==> tick_at_or_below(price)
            == corrected_tick(price),
        sqrt_price_of_tick(corrected_tick(price)) > price ==> tick_at_or_below(price)
            == corrected_tick(price) - 1,
        is_tick_at_or_below(tick_at_or_below(price), price),
{
    let corrected = corrected_tick(price);
    let stepped = if sqrt_price_of_tick(corrected) <= price {
        corrected
    } else {
        corrected - 1
    };
    lemma_stepped_tick_is_at_or_below(price);
    assert(is_tick_at_or_below(stepped, price));
    lemma_tick_at_or_below_is_unique(stepped, tick_at_or_below(price), price);
}

/// Every supported price has a greatest tick whose square-root price does not
/// exceed it.
pub proof fn lemma_tick_at_or_below(price: int)
    requires
        sqrt_price_in_bounds(price),
    ensures
        is_tick_at_or_below(tick_at_or_below(price), price),
        tick_in_bounds(tick_at_or_below(price)),
        sqrt_price_of_tick(tick_at_or_below(price)) <= price,
        tick_at_or_below(price) < 931709 ==> price < sqrt_price_of_tick(
            tick_at_or_below(price) + 1,
        ),
{
    lemma_corrected_tick_steps_down(price);
}

/// The corrected candidate of a supported price, stepped down by one where
/// its square-root price is above the price, has a square-root price that
/// does not exceed the price, and the tick above it has one that does.
proof fn lemma_stepped_tick_is_at_or_below(price: int)
    requires
        sqrt_price_in_bounds(price),
    ensures
        tick_in_bounds(corrected_tick(price)),
        ({
            let corrected = corrected_tick(price);
            let stepped = if sqrt_price_of_tick(corrected) <= price {
                corrected
            } else {
                corrected - 1
            };
            is_tick_at_or_below(stepped, price)
        }),
{
    let c = candidate_tick(price);
    let r = corrected_tick(price);
    lemma2_to64();
    lemma_prices_at_the_ends();
    lemma_corrected_tick_in_bounds(price);
    if price >= scale() {
        let n = greedy_magnitude(price, 20);
        lemma_greedy_of_supported_price(price);
        lemma_greedy_within_two(price);
        lemma_price_step(n);
        lemma_price_step(n + 1);
    } else {
        let q = div_fixed(scale(), price);
        let n = greedy_magnitude(q, 20);
        lemma_greedy_of_supported_inverse(price);
        lemma_greedy_within_two(q);
        lemma_price_of_negative_tick(c);
        if n == 0 {
            lemma_price_of_zero();
        } else {
            lemma_sqrt_price_increasing(c, c + 1);
        }
        if sqrt_price_of_tick(c) > price {
            if c - 1 > -631042 {
                lemma_sqrt_price_increasing(c - 2, c - 1);
            }
            lemma_sqrt_price_increasing(c - 1, c);
            if sqrt_price_of_tick(c - 1) > price {
                let g = price_of_magnitude(n + 2);
                lemma_price_of_negative_tick(c - 2);
                lemma_div_fixed_bounds(scale(), price);
                lemma_div_fixed_bounds(scale(), g);
                lemma_price_step(n + 1);
                assert(div_fixed(scale(), g) <= price) by (nonlinear_arith)
                    requires
                        scale() * scale() < (q + 1) * price,
                        q + 1 <= g,
                        div_fixed(scale(), g) * g <= scale() * scale(),
                        g > 0,
                        price > 0,
                ;
            }
        }
    }
}

/// A supported tick lies at or below the tick at or below a price exactly
/// when its square-root price does not exceed the price.
pub proof fn lemma_tick_at_or_below_is_greatest(price: int, tick: int)
    requires
        sqrt_price_in_bounds(price),
        tick_in_bounds(tick),
    ensures
        sqrt_price_of_tick(tick) <= price <==> tick <= tick_at_or_below(price),
{
    let below = tick_at_or_below(price);
    lemma_tick_at_or_below(price);
    if tick <= below {
        if tick < below {
            lemma_sqrt_price_increasing(tick, below);
        }
    } else {
        if below + 1 < tick {
            lemma_sqrt_price_increasing(below + 1, tick);
        }
    }
}

/// Every supported tick comes back from its square-root price.
pub proof fn lemma_round_trip(tick: int)
    requires
        tick_in_bounds(tick),
    ensures
        sqrt_price_in_bounds(sqrt_price_of_tick(tick)),
        tick_at_or_below(sqrt_price_of_tick(tick)) == tick,
{
    let price = sqrt_price_of_tick(tick);
    lemma_sqrt_price_in_bounds(tick);
    if tick < 931709 {
        lemma_sqrt_price_increasing(tick, tick + 1);
    }
    lemma_tick_at_or_below(price);
    lemma_tick_at_or_below_is_unique(tick, tick_at_or_below(price), price);
}

/// Of two supported prices, the lower has the tick that is not the higher.
pub proof fn lemma_tick_grows_with_price(low: int, high: int)
    requires
        sqrt_price_in_bounds(low),
        sqrt_price_in_bounds(high),
        low <= high,
    ensures
        tick_at_or_below(low) <= tick_at_or_below(high),
{
    lemma_tick_at_or_below(low);
    lemma_tick_at_or_below_is_greatest(high, tick_at_or_below(low));
}

} // verus!
