//! One step of a swap: the move of the price towards a target at constant
//! liquidity.
//!
//! Selling the first asset lowers the price: an input `x` adds `x / l` to the
//! inverse of the price and pays out `l` times the fall of the price. Selling
//! the second asset raises it: an input `x` adds `x / l` to the price and
//! pays out `l` times the fall of its inverse. The fee is taken off the input
//! before the move.

use crate::checked::{difference_of, held, minus, over, plus, product_of, quotient_of, sum_of, times};
use crate::decimal::{div_fixed, mul_fixed, scale, Decimal};
use crate::error::PoolError;
use crate::fixed_point::{lemma_div_fixed_bounds, lemma_mul_fixed_bounds, lemma_mul_fixed_monotone, lemma_mul_fixed_one};
use crate::liquidity::inverse_of;
use vstd::prelude::*;

verus! {

/// What one step of a swap does.
#[derive(Clone, Copy, Debug, PartialEq, Eq, Structural)]
pub struct SwapStep {
    /// The price after the step.
    pub sqrt_price: Decimal,
    /// What the step takes of the input, the fee apart.
    pub amount_in: Decimal,
    /// What the step pays out.
    pub amount_out: Decimal,
    /// The fee that the step takes of the input.
    pub fee: Decimal,
}

/// The views of the four numbers of a step: price, input, output, fee.
pub struct StepView {
    pub sqrt_price: int,
    pub amount_in: int,
    pub amount_out: int,
    pub fee: int,
}

impl View for SwapStep {
    type V = StepView;

    open spec fn view(&self) -> StepView {
        StepView {
            sqrt_price: self.sqrt_price@,
            amount_in: self.amount_in@,
            amount_out: self.amount_out@,
            fee: self.fee@,
        }
    }
}

/// `value`, but no lower than `low` and no higher than `high`.
pub open spec fn clamped(value: int, low: int, high: int) -> int {
    if value < low {
        low
    } else if value > high {
        high
    } else {
        value
    }
}

/// The input that moves the price from `price` to `target` at `liquidity`.
pub open spec fn step_capacity(price: int, target: int, liquidity: int, a_for_b: bool) -> Option<
    int,
> {
    if a_for_b {
        quotient_of(
            product_of(Some(liquidity), difference_of(Some(price), Some(target))),
            product_of(Some(price), Some(target)),
        )
    } else {
        product_of(Some(liquidity), difference_of(Some(target), Some(price)))
    }
}

/// The price that the input `net` moves `price` to, kept between `price` and
/// `target`.
pub open spec fn step_price(price: int, target: int, liquidity: int, net: int, a_for_b: bool)
    -> Option<int> {
    let moved = quotient_of(Some(net), Some(liquidity));
    if a_for_b {
        let reached = quotient_of(Some(scale()), sum_of(inverse_of(price), moved));
        if reached.is_some() {
            Some(clamped(reached.unwrap(), target, price))
        } else {
            None
        }
    } else {
        let reached = sum_of(Some(price), moved);
        if reached.is_some() {
            Some(clamped(reached.unwrap(), price, target))
        } else {
            None
        }
    }
}

/// What the move of the price from `price` to `next` pays out at `liquidity`.
pub open spec fn step_output(price: int, next: int, liquidity: int, a_for_b: bool) -> Option<int> {
    if a_for_b {
        product_of(Some(liquidity), difference_of(Some(price), Some(next)))
    } else {
        product_of(Some(liquidity), difference_of(inverse_of(price), inverse_of(next)))
    }
}

/// The step that `remaining` input buys at `liquidity` on the way from `price`
/// to `target`, at the fee rate `rate`; `None` where a number cannot be held.
///
/// The fee on the whole of `remaining` is set aside. If the rest reaches the
/// capacity of the step, the price lands on `target`, the capacity is taken
/// and the fee is reckoned on it alone, never above the fee set aside.
/// Otherwise all of the rest is taken, with the fee set aside.
#[verifier::opaque]
pub open spec fn swap_step_of(
    price: int,
    target: int,
    liquidity: int,
    remaining: int,
    rate: int,
    a_for_b: bool,
) -> Option<StepView> {
    let fee = product_of(Some(remaining), Some(rate));
    let net = difference_of(Some(remaining), fee);
    let capacity = step_capacity(price, target, liquidity, a_for_b);
    if fee.is_none() || net.is_none() || capacity.is_none() {
        None
    } else if net.unwrap() >= capacity.unwrap() {
        let due = quotient_of(
            product_of(capacity, Some(rate)),
            difference_of(Some(scale()), Some(rate)),
        );
        let output = step_output(price, target, liquidity, a_for_b);
        if due.is_none() || output.is_none() {
            None
        } else {
            Some(
                StepView {
                    sqrt_price: target,
                    amount_in: capacity.unwrap(),
                    amount_out: output.unwrap(),
                    fee: if due.unwrap() <= fee.unwrap() {
                        due.unwrap()
                    } else {
                        fee.unwrap()
                    },
                },
            )
        }
    } else {
        let next = step_price(price, target, liquidity, net.unwrap(), a_for_b);
        if next.is_none() {
            None
        } else {
            let output = step_output(price, next.unwrap(), liquidity, a_for_b);
            if output.is_none() {
                None
            } else {
                Some(
                    StepView {
                        sqrt_price: next.unwrap(),
                        amount_in: net.unwrap(),
                        amount_out: output.unwrap(),
                        fee: fee.unwrap(),
                    },
                )
            }
        }
    }
}

/// `value`, but no lower than `low` and no higher than `high`.
fn clamp(value: Decimal, low: Decimal, high: Decimal) -> (r: Decimal)
    ensures
        r@ == clamped(value@, low@, high@),
{
    if value.lt(&low) {
        low
    } else if value.gt(&high) {
        high
    } else {
        value
    }
}

/// What the move of the price from `price` to `next` pays out.
fn output_of_step(price: Decimal, next: Decimal, liquidity: Decimal, a_for_b: bool) -> (r: Result<
    Decimal,
    PoolError,
>)
    ensures
        held(r) == step_output(price@, next@, liquidity@, a_for_b),
        r matches Err(e) ==> e == PoolError::Overflow,
{
    if a_for_b {
        times(liquidity, minus(price, next)?)
    } else {
        let one = Decimal::one();
        times(liquidity, minus(over(one, price)?, over(one, next)?)?)
    }
}

/// Computes one step of a swap; see `swap_step_of`.
pub fn compute_swap_step(
    price: Decimal,
    target: Decimal,
    liquidity: Decimal,
    remaining: Decimal,
    rate: Decimal,
    a_for_b: bool,
) -> (r: Result<SwapStep, PoolError>)
    ensures
        r.is_ok() == swap_step_of(
            price@,
            target@,
            liquidity@,
            remaining@,
            rate@,
            a_for_b,
        ).is_some(),
        r matches Ok(step) ==> Some(step@) == swap_step_of(
            price@,
            target@,
            liquidity@,
            remaining@,
            rate@,
            a_for_b,
        ),
        r matches Err(e) ==> e == PoolError::Overflow,
{
    proof {
        reveal(swap_step_of);
    }
    let one = Decimal::one();
    let fee = times(remaining, rate)?;
    let net = minus(remaining, fee)?;
    let capacity = if a_for_b {
        over(times(liquidity, minus(price, target)?)?, times(price, target)?)?
    } else {
        times(liquidity, minus(target, price)?)?
    };
    if net.ge(&capacity) {
        let due = over(times(capacity, rate)?, minus(one, rate)?)?;
        let output = output_of_step(price, target, liquidity, a_for_b)?;
        let paid = if due.le(&fee) {
            due
        } else {
            fee
        };
        Ok(SwapStep { sqrt_price: target, amount_in: capacity, amount_out: output, fee: paid })
    } else {
        let moved = over(net, liquidity)?;
        let next = if a_for_b {
            clamp(over(one, plus(over(one, price)?, moved)?)?, target, price)
        } else {
            clamp(plus(price, moved)?, price, target)
        };
        let output = output_of_step(price, next, liquidity, a_for_b)?;
        Ok(SwapStep { sqrt_price: next, amount_in: net, amount_out: output, fee })
    }
}

/// A step moves the price towards its target and never past it, nor back.
pub proof fn lemma_step_keeps_direction(
    price: int,
    target: int,
    liquidity: int,
    remaining: int,
    rate: int,
    a_for_b: bool,
)
    requires
        swap_step_of(price, target, liquidity, remaining, rate, a_for_b).is_some(),
        a_for_b ==> target <= price,
        !a_for_b ==> price <= target,
    ensures
        ({
            let step = swap_step_of(price, target, liquidity, remaining, rate, a_for_b).unwrap();
            &&& a_for_b ==> target <= step.sqrt_price <= price
            &&& !a_for_b ==> price <= step.sqrt_price <= target
        }),
{
    reveal(swap_step_of);
}

/// A step takes no more than the input it was offered: with a fee rate from
/// zero to one, an input that is not negative and a capacity that is not
/// negative, the amount taken and the fee are not negative and together do
/// not exceed the input. A step that stops short of its target takes all of
/// the input.
pub proof fn lemma_step_takes_no_more(
    price: int,
    target: int,
    liquidity: int,
    remaining: int,
    rate: int,
    a_for_b: bool,
)
    requires
        swap_step_of(price, target, liquidity, remaining, rate, a_for_b).is_some(),
        remaining >= 0,
        0 <= rate < scale(),
        step_capacity(price, target, liquidity, a_for_b).unwrap() >= 0,
    ensures
        ({
            let step = swap_step_of(price, target, liquidity, remaining, rate, a_for_b).unwrap();
            &&& step.amount_in >= 0
            &&& step.fee >= 0
            &&& step.amount_in + step.fee <= remaining
            &&& step.sqrt_price != target ==> step.amount_in + step.fee == remaining
        }),
{
    reveal(swap_step_of);
    let fee = mul_fixed(remaining, rate);
    lemma_mul_fixed_bounds(remaining, rate);
    lemma_mul_fixed_monotone(rate, scale(), remaining);
    lemma_mul_fixed_one(remaining);
    assert(remaining * rate == rate * remaining) by (nonlinear_arith);
    assert(0 <= fee <= remaining);
    let capacity = step_capacity(price, target, liquidity, a_for_b).unwrap();
    if remaining - fee >= capacity {
        let part = mul_fixed(capacity, rate);
        lemma_mul_fixed_bounds(capacity, rate);
        lemma_div_fixed_bounds(part, scale() - rate);
    }
}

/// With a liquidity that is not negative and positive prices, a step towards
/// its target has a capacity that is not negative and pays out an amount
/// that is not negative.
pub proof fn lemma_step_amounts_are_not_negative(
    price: int,
    target: int,
    liquidity: int,
    remaining: int,
    rate: int,
    a_for_b: bool,
)
    requires
        swap_step_of(price, target, liquidity, remaining, rate, a_for_b).is_some(),
        liquidity >= 0,
        a_for_b ==> 0 < target <= price,
        !a_for_b ==> 0 < price <= target,
    ensures
        step_capacity(price, target, liquidity, a_for_b).unwrap() >= 0,
        swap_step_of(price, target, liquidity, remaining, rate, a_for_b).unwrap().amount_out >= 0,
{
    reveal(swap_step_of);
    let step = swap_step_of(price, target, liquidity, remaining, rate, a_for_b).unwrap();
    let next = step.sqrt_price;
    lemma_step_keeps_direction(price, target, liquidity, remaining, rate, a_for_b);
    if a_for_b {
        lemma_mul_fixed_bounds(liquidity, price - target);
        lemma_mul_fixed_bounds(price, target);
        lemma_div_fixed_bounds(mul_fixed(liquidity, price - target), mul_fixed(price, target));
        lemma_mul_fixed_bounds(liquidity, price - next);
    } else {
        lemma_mul_fixed_bounds(liquidity, target - price);
        lemma_div_fixed_bounds(scale(), price);
        lemma_div_fixed_bounds(scale(), next);
        let before = div_fixed(scale(), price);
        let after = div_fixed(scale(), next);
        assert(after <= before) by (nonlinear_arith)
            requires
                after * next <= scale() * scale(),
                scale() * scale() < (before + 1) * price,
                0 < price <= next,
                after >= 0,
        ;
        lemma_mul_fixed_bounds(liquidity, before - after);
    }
}

} // verus!
