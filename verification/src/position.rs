//! A position: liquidity over a range of ticks, with the fees it has earned.
//!
//! Fees are reckoned from the growth of fees per unit of liquidity inside the
//! position's range. The position remembers that growth as of its last
//! reckoning; what has grown since, times its liquidity, is owed to it.

use crate::checked::{difference_of, held, minus, plus, product_of, sum_of, times};
use crate::decimal::{is_held, Decimal};
use crate::error::PoolError;
use crate::fixed_point::lemma_mul_fixed_bounds;
use vstd::prelude::*;

verus! {

/// Liquidity over the ticks from `low_tick` up to, not including,
/// `high_tick`.
#[derive(Clone, Copy, Debug, PartialEq, Eq, Structural)]
pub struct Position {
    /// The token under which the position is held.
    pub id: u64,
    pub low_tick: i32,
    pub high_tick: i32,
    pub liquidity: Decimal,
    /// Fee growth inside the range, in the first asset, at the last
    /// reckoning.
    pub fee_growth_inside_a_last: Decimal,
    /// Fee growth inside the range, in the second asset, at the last
    /// reckoning.
    pub fee_growth_inside_b_last: Decimal,
    /// Fees in the first asset that are owed and not yet collected.
    pub owed_fee_a: Decimal,
    /// Fees in the second asset that are owed and not yet collected.
    pub owed_fee_b: Decimal,
}

/// The fee growth inside the range from `low_tick` to `high_tick`: the global
/// growth less the growth below the range and the growth above it. The growth
/// below is the growth outside the lower tick when the current tick is at or
/// above it, and the rest of the global growth otherwise; likewise above.
pub open spec fn growth_inside(
    global: int,
    outside_low: int,
    outside_high: int,
    low_tick: int,
    high_tick: int,
    current_tick: int,
) -> Option<int> {
    let below = if current_tick >= low_tick {
        Some(outside_low)
    } else {
        difference_of(Some(global), Some(outside_low))
    };
    let above = if current_tick < high_tick {
        Some(outside_high)
    } else {
        difference_of(Some(global), Some(outside_high))
    };
    difference_of(difference_of(Some(global), below), above)
}

/// The fees owed after a reckoning at the growth `inside`: what was owed,
/// and the liquidity times the growth since the last reckoning.
pub open spec fn owed_after(owed: int, liquidity: int, inside: int, last: int) -> Option<int> {
    sum_of(Some(owed), product_of(Some(liquidity), difference_of(Some(inside), Some(last))))
}

/// Computes the fee growth inside a range; see `growth_inside`.
pub fn fee_growth_inside(
    global: Decimal,
    outside_low: Decimal,
    outside_high: Decimal,
    low_tick: i32,
    high_tick: i32,
    current_tick: i32,
) -> (r: Result<Decimal, PoolError>)
    ensures
        held(r) == growth_inside(
            global@,
            outside_low@,
            outside_high@,
            low_tick as int,
            high_tick as int,
            current_tick as int,
        ),
        r matches Err(e) ==> e == PoolError::Overflow,
{
    let below = if current_tick >= low_tick {
        outside_low
    } else {
        minus(global, outside_low)?
    };
    let above = if current_tick < high_tick {
        outside_high
    } else {
        minus(global, outside_high)?
    };
    minus(minus(global, below)?, above)
}

impl Position {
    /// Whether the range is not empty and the liquidity is positive.
    pub open spec fn wf(&self) -> bool {
        &&& self.low_tick < self.high_tick
        &&& self.liquidity@ > 0
    }

    /// Whether a reckoning at the growths `inside_a` and `inside_b` can be
    /// held.
    pub open spec fn can_accrue(&self, inside_a: int, inside_b: int) -> bool {
        &&& owed_after(
            self.owed_fee_a@,
            self.liquidity@,
            inside_a,
            self.fee_growth_inside_a_last@,
        ).is_some()
        &&& owed_after(
            self.owed_fee_b@,
            self.liquidity@,
            inside_b,
            self.fee_growth_inside_b_last@,
        ).is_some()
    }

    /// Reckons the fees earned up to the growths `inside_a` and `inside_b`:
    /// they are added to what is owed, and the growths are remembered. It is
    /// refused, and changes nothing, when a number cannot be held.
    pub fn accrue(&mut self, inside_a: Decimal, inside_b: Decimal) -> (r: Result<(), PoolError>)
        ensures
            r.is_ok() == old(self).can_accrue(inside_a@, inside_b@),
            r matches Err(e) ==> e == PoolError::Overflow && *final(self) == *old(self),
            r.is_ok() ==> {
                &&& Some(final(self).owed_fee_a@) == owed_after(
                    old(self).owed_fee_a@,
                    old(self).liquidity@,
                    inside_a@,
                    old(self).fee_growth_inside_a_last@,
                )
                &&& Some(final(self).owed_fee_b@) == owed_after(
                    old(self).owed_fee_b@,
                    old(self).liquidity@,
                    inside_b@,
                    old(self).fee_growth_inside_b_last@,
                )
                &&& final(self).fee_growth_inside_a_last == inside_a
                &&& final(self).fee_growth_inside_b_last == inside_b
                &&& final(self).id == old(self).id
                &&& final(self).low_tick == old(self).low_tick
                &&& final(self).high_tick == old(self).high_tick
                &&& final(self).liquidity == old(self).liquidity
            },
    {
        let earned_a = times(self.liquidity, minus(inside_a, self.fee_growth_inside_a_last)?)?;
        let owed_a = plus(self.owed_fee_a, earned_a)?;
        let earned_b = times(self.liquidity, minus(inside_b, self.fee_growth_inside_b_last)?)?;
        let owed_b = plus(self.owed_fee_b, earned_b)?;
        self.owed_fee_a = owed_a;
        self.owed_fee_b = owed_b;
        self.fee_growth_inside_a_last = inside_a;
        self.fee_growth_inside_b_last = inside_b;
        Ok(())
    }

    /// Reckons the fees as `accrue` does and hands out all that is owed,
    /// leaving nothing owed. It is refused, and changes nothing, when a
    /// number cannot be held.
    pub fn collect(&mut self, inside_a: Decimal, inside_b: Decimal) -> (r: Result<
        (Decimal, Decimal),
        PoolError,
    >)
        ensures
            r.is_ok() == old(self).can_accrue(inside_a@, inside_b@),
            r matches Err(e) ==> e == PoolError::Overflow && *final(self) == *old(self),
            r matches Ok(fees) ==> {
                &&& Some(fees.0@) == owed_after(
                    old(self).owed_fee_a@,
                    old(self).liquidity@,
                    inside_a@,
                    old(self).fee_growth_inside_a_last@,
                )
                &&& Some(fees.1@) == owed_after(
                    old(self).owed_fee_b@,
                    old(self).liquidity@,
                    inside_b@,
                    old(self).fee_growth_inside_b_last@,
                )
                &&& final(self).owed_fee_a@ == 0
                &&& final(self).owed_fee_b@ == 0
                &&& final(self).fee_growth_inside_a_last == inside_a
                &&& final(self).fee_growth_inside_b_last == inside_b
                &&& final(self).id == old(self).id
                &&& final(self).low_tick == old(self).low_tick
                &&& final(self).high_tick == old(self).high_tick
                &&& final(self).liquidity == old(self).liquidity
            },
    {
        self.accrue(inside_a, inside_b)?;
        let fees = (self.owed_fee_a, self.owed_fee_b);
        self.owed_fee_a = Decimal::zero();
        self.owed_fee_b = Decimal::zero();
        Ok(fees)
    }
}

/// With nothing owed and no growth since the last reckoning, nothing is owed
/// after a reckoning: a second collection, with no swap between the two,
/// hands out nothing.
pub proof fn lemma_second_collection_is_empty(liquidity: int, inside: int)
    requires
        is_held(liquidity),
        is_held(inside),
    ensures
        owed_after(0, liquidity, inside, inside) == Some(0int),
{
    assert(liquidity * 0 == 0) by (nonlinear_arith);
}

/// What a reckoning adds to the fees owed depends on the liquidity and on the
/// growth since the last reckoning alone: two positions of equal liquidity
/// over the same range, reckoned from the same growth, earn the same.
pub proof fn lemma_equal_liquidity_earns_equally(
    owed_first: int,
    owed_second: int,
    liquidity: int,
    inside: int,
    last: int,
)
    requires
        owed_after(owed_first, liquidity, inside, last).is_some(),
        owed_after(owed_second, liquidity, inside, last).is_some(),
    ensures
        owed_after(owed_first, liquidity, inside, last).unwrap() - owed_first == owed_after(
            owed_second,
            liquidity,
            inside,
            last,
        ).unwrap() - owed_second,
{
}

/// Fees owed never shrink at a reckoning while the growth inside the range
/// has not fallen.
pub proof fn lemma_owed_does_not_shrink(owed: int, liquidity: int, inside: int, last: int)
    requires
        liquidity >= 0,
        inside >= last,
        owed_after(owed, liquidity, inside, last).is_some(),
    ensures
        owed_after(owed, liquidity, inside, last).unwrap() >= owed,
{
    lemma_mul_fixed_bounds(liquidity, inside - last);
}

} // verus!
