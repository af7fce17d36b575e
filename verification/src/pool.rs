//! The state of a pool, and the operations on it.
//!
//! Every operation either is carried out in full or, refused, leaves the pool
//! as it was.

use crate::accounting::books_agree;
use crate::checked::{difference_of, minus, plus, sum_of};
use crate::decimal::{decimal_of, lemma_decimal_of_view, scale, Decimal};
use crate::error::PoolError;
use crate::liquidity::{amount_a_for, amount_b_for, amounts_for_liquidity, deposit_amounts, deposit_for, Deposit, DepositView};
use crate::pool_laws::{lemma_closed_keeps_books, lemma_collected_keeps_books, lemma_empty_books, lemma_grown_keeps_books, lemma_opened_keeps_books};
use crate::position::Position;
use crate::position::{fee_growth_inside, growth_inside, owed_after};
use crate::tick_ledger::{dereference_outcome, dereferenced, reference_outcome, referenced, TickInfo, TickLedger};
use crate::tick_math::{MAX_TICK, MIN_TICK, sqrt_price_at_tick, sqrt_price_in_bounds, sqrt_price_of_tick, tick_at_or_below, tick_at_sqrt_price, tick_in_bounds};
use vstd::prelude::*;

verus! {

/// A pool of two assets, `a` and `b`. Its price is the worth of one unit of
/// `a` in units of `b`.
pub struct Pool {
    /// The square root of the current price.
    pub sqrt_price: Decimal,
    /// The tick at or just below the current price.
    pub current_tick: i32,
    /// The liquidity of the positions whose range holds the current tick.
    pub active_liquidity: Decimal,
    /// Fees in asset `a` taken so far, per unit of liquidity.
    pub fee_growth_global_a: Decimal,
    /// Fees in asset `b` taken so far, per unit of liquidity.
    pub fee_growth_global_b: Decimal,
    /// The part of every input that is kept as a fee.
    pub fee_rate: Decimal,
    /// The initialised ticks.
    pub ticks: TickLedger,
    /// The open positions, in the order in which they were opened.
    pub positions: Vec<Position>,
    /// The token under which the next position will be held.
    pub next_position_id: u64,
}

/// The state of a pool as plain values.
pub struct PoolView {
    pub sqrt_price: int,
    pub current_tick: int,
    pub active_liquidity: int,
    pub fee_growth_global_a: int,
    pub fee_growth_global_b: int,
    pub fee_rate: int,
    pub ticks: Map<int, TickInfo>,
    pub positions: Seq<Position>,
    pub next_position_id: int,
}

impl View for Pool {
    type V = PoolView;

    open spec fn view(&self) -> PoolView {
        PoolView {
            sqrt_price: self.sqrt_price@,
            current_tick: self.current_tick as int,
            active_liquidity: self.active_liquidity@,
            fee_growth_global_a: self.fee_growth_global_a@,
            fee_growth_global_b: self.fee_growth_global_b@,
            fee_rate: self.fee_rate@,
            ticks: self.ticks@,
            positions: self.positions@,
            next_position_id: self.next_position_id as int,
        }
    }
}

/// Whether `positions` are well formed, lie within the supported ticks and
/// are held under distinct tokens below `next_id`, in ascending order.
pub open spec fn positions_well_formed(positions: Seq<Position>, next_id: int) -> bool {
    &&& forall|i: int|
        0 <= i < positions.len() ==> {
            &&& (#[trigger] positions[i]).wf()
            &&& tick_in_bounds(positions[i].low_tick as int)
            &&& tick_in_bounds(positions[i].high_tick as int)
            &&& positions[i].id < next_id
        }
    &&& forall|i: int, j: int|
        0 <= i < j < positions.len() ==> (#[trigger] positions[i]).id < (#[trigger] positions[j]).id
}

/// Whether one of `positions` is held under `id`.
pub open spec fn positions_hold(positions: Seq<Position>, id: u64) -> bool {
    exists|i: int| 0 <= i < positions.len() && (#[trigger] positions[i]).id == id
}

/// The index of the one of `positions` that is held under `id`.
pub open spec fn position_index(positions: Seq<Position>, id: u64) -> int {
    choose|i: int| 0 <= i < positions.len() && (#[trigger] positions[i]).id == id
}

/// Whether `tick` is the tick at or just below `price`: its square-root price
/// does not exceed `price`, and that of the next tick is not below `price`.
pub open spec fn tick_matches_price(tick: int, price: int) -> bool {
    &&& tick_in_bounds(tick)
    &&& sqrt_price_in_bounds(price)
    &&& sqrt_price_of_tick(tick) <= price
    &&& tick < MAX_TICK ==> price <= sqrt_price_of_tick(tick + 1)
}

impl Pool {
    /// The pool's invariant.
    pub open spec fn wf(&self) -> bool {
        &&& self.ticks.wf()
        &&& tick_matches_price(self.current_tick as int, self.sqrt_price@)
        &&& 0 <= self.fee_rate@ < scale()
        &&& self.active_liquidity@ >= 0
        &&& positions_well_formed(self.positions@, self.next_position_id as int)
        &&& books_agree(self@)
    }

    /// Whether a position is held under `id`.
    pub open spec fn holds(&self, id: u64) -> bool {
        positions_hold(self.positions@, id)
    }

    /// The index of the position held under `id`.
    pub open spec fn index_of(&self, id: u64) -> int {
        position_index(self.positions@, id)
    }

    /// A pool without positions at the price whose square root is
    /// `sqrt_price`, keeping `fee_rate` of every input. A price outside the
    /// supported range and a fee rate outside `[0, 1)` are refused.
    pub fn new(fee_rate: Decimal, sqrt_price: Decimal) -> (r: Result<Pool, PoolError>)
        ensures
            r.is_ok() == (sqrt_price_in_bounds(sqrt_price@) && 0 <= fee_rate@ < scale()),
            r matches Err(e) ==> e == PoolError::OutOfBounds,
            r matches Ok(pool) ==> {
                &&& pool.wf()
                &&& pool.sqrt_price == sqrt_price
                &&& pool.fee_rate == fee_rate
                &&& pool.current_tick == tick_at_or_below(sqrt_price@)
                &&& pool.active_liquidity@ == 0
                &&& pool.fee_growth_global_a@ == 0
                &&& pool.fee_growth_global_b@ == 0
                &&& pool.ticks@ == Map::<int, TickInfo>::empty()
                &&& pool.positions@ == Seq::<Position>::empty()
                &&& pool.next_position_id == 1
            },
    {
        let zero = Decimal::zero();
        if fee_rate.lt(&zero) || fee_rate.ge(&Decimal::one()) {
            return Err(PoolError::OutOfBounds);
        }
        let current_tick = match tick_at_sqrt_price(sqrt_price) {
            Ok(tick) => tick,
            Err(_) => {
                return Err(PoolError::OutOfBounds);
            },
        };
        proof {
            lemma_empty_books(sqrt_price@, current_tick as int, fee_rate@);
        }
        Ok(
            Pool {
                sqrt_price,
                current_tick,
                active_liquidity: zero,
                fee_growth_global_a: zero,
                fee_growth_global_b: zero,
                fee_rate,
                ticks: TickLedger::new(),
                positions: Vec::new(),
                next_position_id: 1,
            },
        )
    }

    /// Where the position held under `id` stands among the positions.
    pub fn find_position(&self, id: u64) -> (r: Option<usize>)
        requires
            self.wf(),
        ensures
            r.is_some() == self.holds(id),
            r matches Some(index) ==> index == self.index_of(id) && index < self.positions@.len()
                && self.positions@[index as int].id == id,
    {
        let mut index: usize = 0;
        while index < self.positions.len()
            invariant
                self.wf(),
                index <= self.positions@.len(),
                forall|i: int| 0 <= i < index ==> (#[trigger] self.positions@[i]).id != id,
            decreases self.positions@.len() - index,
        {
            if self.positions[index].id == id {
                proof {
                    let chosen = self.index_of(id);
                    if chosen < index {
                        assert(self.positions@[chosen].id < self.positions@[index as int].id);
                    } else if chosen > index {
                        assert(self.positions@[index as int].id < self.positions@[chosen].id);
                    }
                }
                return Some(index);
            }
            index = index + 1;
        }
        None
    }

    /// The fee growth inside the range from `low_tick` to `high_tick` in the
    /// two assets, read off `ticks`.
    fn inside_growth(&self, ticks: &TickLedger, low_tick: i32, high_tick: i32) -> (r: Result<
        (Decimal, Decimal),
        PoolError,
    >)
        requires
            ticks.wf(),
        ensures
            r.is_ok() == (inside_of(self@, ticks@, low_tick as int, high_tick as int).0.is_some()
                && inside_of(self@, ticks@, low_tick as int, high_tick as int).1.is_some()),
            r matches Ok(inside) ==> Some(inside.0@) == inside_of(
                self@,
                ticks@,
                low_tick as int,
                high_tick as int,
            ).0 && Some(inside.1@) == inside_of(self@, ticks@, low_tick as int, high_tick as int).1,
            r matches Err(e) ==> e == PoolError::Overflow,
    {
        let zero = Decimal::zero();
        let (low_a, low_b) = match ticks.get(low_tick) {
            Some(info) => (info.fee_growth_outside_a, info.fee_growth_outside_b),
            None => (zero, zero),
        };
        let (high_a, high_b) = match ticks.get(high_tick) {
            Some(info) => (info.fee_growth_outside_a, info.fee_growth_outside_b),
            None => (zero, zero),
        };
        let inside_a = fee_growth_inside(
            self.fee_growth_global_a,
            low_a,
            high_a,
            low_tick,
            high_tick,
            self.current_tick,
        )?;
        let inside_b = fee_growth_inside(
            self.fee_growth_global_b,
            low_b,
            high_b,
            low_tick,
            high_tick,
            self.current_tick,
        )?;
        Ok((inside_a, inside_b))
    }

    /// Opens a position over the range from `low_tick` to `high_tick` with
    /// the offered amounts, and hands back its token and what was not needed
    /// of the two assets; see `opened`.
    pub fn add_position(
        &mut self,
        low_tick: i32,
        high_tick: i32,
        amount_a: Decimal,
        amount_b: Decimal,
    ) -> (r: Result<(u64, Decimal, Decimal), PoolError>)
        requires
            old(self).wf(),
        ensures
            final(self).wf(),
            r matches Ok(done) ==> opened(
                old(self)@,
                low_tick as int,
                high_tick as int,
                amount_a@,
                amount_b@,
            ) == Ok::<Opened, PoolError>(
                Opened { pool: final(self)@, refund_a: done.1@, refund_b: done.2@ },
            ) && done.0 == old(self).next_position_id,
            r matches Err(e) ==> opened(
                old(self)@,
                low_tick as int,
                high_tick as int,
                amount_a@,
                amount_b@,
            ) == Err::<Opened, PoolError>(e) && final(self)@ == old(self)@,
    {
        if low_tick < MIN_TICK || high_tick > MAX_TICK || low_tick >= high_tick {
            return Err(PoolError::InvalidRange);
        }
        let price_low = match sqrt_price_at_tick(low_tick) {
            Ok(price) => price,
            Err(_) => {
                return Err(PoolError::InvalidRange);
            },
        };
        let price_high = match sqrt_price_at_tick(high_tick) {
            Ok(price) => price,
            Err(_) => {
                return Err(PoolError::InvalidRange);
            },
        };
        let deposit = deposit_amounts(self.sqrt_price, price_low, price_high, amount_a, amount_b)?;
        let liquidity = deposit.liquidity;
        let refund_a = minus(amount_a, deposit.used_a);
        let refund_b = minus(amount_b, deposit.used_b);
        if refund_a.is_err() || refund_b.is_err() {
            return Err(PoolError::Overflow);
        }
        proof {
            lemma_decimal_of_view(self.fee_growth_global_a);
            lemma_decimal_of_view(self.fee_growth_global_b);
        }
        let mut ticks = self.ticks.duplicate();
        let lower = ticks.reference(
            low_tick,
            liquidity,
            true,
            self.current_tick,
            self.fee_growth_global_a,
            self.fee_growth_global_b,
        );
        if lower.is_err() {
            return Err(PoolError::Overflow);
        }
        let upper = ticks.reference(
            high_tick,
            liquidity,
            false,
            self.current_tick,
            self.fee_growth_global_a,
            self.fee_growth_global_b,
        );
        if upper.is_err() {
            return Err(PoolError::Overflow);
        }
        let (inside_a, inside_b) = self.inside_growth(&ticks, low_tick, high_tick)?;
        let active = if low_tick <= self.current_tick && self.current_tick < high_tick {
            plus(self.active_liquidity, liquidity)?
        } else {
            self.active_liquidity
        };
        if self.next_position_id == u64::MAX {
            return Err(PoolError::Overflow);
        }
        let id = self.next_position_id;
        let zero = Decimal::zero();
        let position = Position {
            id,
            low_tick,
            high_tick,
            liquidity,
            fee_growth_inside_a_last: inside_a,
            fee_growth_inside_b_last: inside_b,
            owed_fee_a: zero,
            owed_fee_b: zero,
        };
        proof {
            lemma_decimal_of_view(liquidity);
            lemma_decimal_of_view(inside_a);
            lemma_decimal_of_view(inside_b);
            lemma_decimal_of_view(zero);
        }
        self.ticks = ticks;
        self.active_liquidity = active;
        self.positions.push(position);
        self.next_position_id = id + 1;
        proof {
            lemma_opened_keeps_books(
                old(self)@,
                low_tick as int,
                high_tick as int,
                amount_a@,
                amount_b@,
            );
        }
        Ok((id, refund_a.unwrap(), refund_b.unwrap()))
    }

    /// The position at `index` after its fees are reckoned as the pool
    /// stands.
    fn accrue_position(&self, index: usize) -> (r: Result<Position, PoolError>)
        requires
            self.wf(),
            index < self.positions@.len(),
        ensures
            r.is_ok() == accrued(self@, self.positions@[index as int]).is_some(),
            r matches Ok(position) ==> Some(position) == accrued(
                self@,
                self.positions@[index as int],
            ) && position.wf() && position.id == self.positions@[index as int].id
                && position.low_tick == self.positions@[index as int].low_tick
                && position.high_tick == self.positions@[index as int].high_tick
                && position.liquidity == self.positions@[index as int].liquidity,
            r matches Err(e) ==> e == PoolError::Overflow,
    {
        let mut position = self.positions[index];
        let (inside_a, inside_b) = self.inside_growth(
            &self.ticks,
            position.low_tick,
            position.high_tick,
        )?;
        position.accrue(inside_a, inside_b)?;
        proof {
            lemma_decimal_of_view(inside_a);
            lemma_decimal_of_view(inside_b);
            lemma_decimal_of_view(position.owed_fee_a);
            lemma_decimal_of_view(position.owed_fee_b);
        }
        Ok(position)
    }

    /// Hands out the fees owed to the position held under `id`; see
    /// `collected`.
    pub fn collect_fees(&mut self, id: u64) -> (r: Result<(Decimal, Decimal), PoolError>)
        requires
            old(self).wf(),
        ensures
            final(self).wf(),
            r matches Ok(fees) ==> collected(old(self)@, id) == Ok::<Collected, PoolError>(
                Collected { pool: final(self)@, fee_a: fees.0@, fee_b: fees.1@ },
            ),
            r matches Err(e) ==> collected(old(self)@, id) == Err::<Collected, PoolError>(e)
                && final(self)@ == old(self)@,
    {
        let index = match self.find_position(id) {
            Some(index) => index,
            None => {
                return Err(PoolError::InsufficientOwnership);
            },
        };
        let mut settled = self.positions[index];
        let (inside_a, inside_b) = self.inside_growth(
            &self.ticks,
            settled.low_tick,
            settled.high_tick,
        )?;
        let fees = settled.collect(inside_a, inside_b)?;
        proof {
            lemma_decimal_of_view(inside_a);
            lemma_decimal_of_view(inside_b);
            lemma_decimal_of_view(fees.0);
            lemma_decimal_of_view(fees.1);
            lemma_decimal_of_view(settled.owed_fee_a);
            lemma_decimal_of_view(settled.owed_fee_b);
            assert forall|i: int, j: int|
                0 <= i < j < self.positions@.len() implies (#[trigger] self.positions@.update(
                index as int,
                settled,
            )[i]).id < (#[trigger] self.positions@.update(index as int, settled)[j]).id by {
                assert(self.positions@[i].id < self.positions@[j].id);
            }
        }
        self.positions.set(index, settled);
        proof {
            lemma_collected_keeps_books(old(self)@, id);
        }
        Ok(fees)
    }

    /// Closes the position held under `id` and hands out what it stands for
    /// and is owed; see `closed`.
    pub fn remove_position(&mut self, id: u64) -> (r: Result<(Decimal, Decimal), PoolError>)
        requires
            old(self).wf(),
        ensures
            final(self).wf(),
            r matches Ok(amounts) ==> closed(old(self)@, id) == Ok::<Closed, PoolError>(
                Closed { pool: final(self)@, amount_a: amounts.0@, amount_b: amounts.1@ },
            ),
            r matches Err(e) ==> closed(old(self)@, id) == Err::<Closed, PoolError>(e)
                && final(self)@ == old(self)@,
    {
        let index = match self.find_position(id) {
            Some(index) => index,
            None => {
                return Err(PoolError::InsufficientOwnership);
            },
        };
        let position = self.accrue_position(index)?;
        let liquidity = position.liquidity;
        let price_low = match sqrt_price_at_tick(position.low_tick) {
            Ok(price) => price,
            Err(_) => {
                return Err(PoolError::Overflow);
            },
        };
        let price_high = match sqrt_price_at_tick(position.high_tick) {
            Ok(price) => price,
            Err(_) => {
                return Err(PoolError::Overflow);
            },
        };
        let (stands_a, stands_b) = amounts_for_liquidity(
            self.sqrt_price,
            price_low,
            price_high,
            liquidity,
        )?;
        let amount_a = plus(stands_a, position.owed_fee_a)?;
        let amount_b = plus(stands_b, position.owed_fee_b)?;
        let mut ticks = self.ticks.duplicate();
        if ticks.dereference(position.low_tick, liquidity, true).is_err() {
            return Err(PoolError::Overflow);
        }
        if ticks.dereference(position.high_tick, liquidity, false).is_err() {
            return Err(PoolError::Overflow);
        }
        let active = if position.low_tick <= self.current_tick && self.current_tick
            < position.high_tick {
            if liquidity.gt(&self.active_liquidity) {
                return Err(PoolError::Overflow);
            }
            minus(self.active_liquidity, liquidity)?
        } else {
            self.active_liquidity
        };
        proof {
            let before = self.positions@;
            let after = before.remove(index as int);
            assert forall|i: int| 0 <= i < after.len() implies {
                &&& (#[trigger] after[i]).wf()
                &&& tick_in_bounds(after[i].low_tick as int)
                &&& tick_in_bounds(after[i].high_tick as int)
                &&& after[i].id < self.next_position_id
            } by {
                let k = if i < index { i } else { i + 1 };
                assert(before[k].wf());
            }
            assert forall|i: int, j: int| 0 <= i < j < after.len() implies (#[trigger] after[i]).id
                < (#[trigger] after[j]).id by {
                let k = if i < index { i } else { i + 1 };
                let l = if j < index { j } else { j + 1 };
                assert(before[k].id < before[l].id);
            }
        }
        self.ticks = ticks;
        self.active_liquidity = active;
        self.positions.remove(index);
        proof {
            lemma_closed_keeps_books(old(self)@, id);
        }
        Ok((amount_a, amount_b))
    }

    /// Reckons the deposit of the offered amounts into `position`, and what
    /// it makes of the ledger, of the active liquidity and of the liquidity
    /// of the position; see `grown`.
    fn grow(&self, position: &Position, amount_a: Decimal, amount_b: Decimal) -> (r: Result<
        (Deposit, TickLedger, Decimal, Decimal),
        PoolError,
    >)
        requires
            self.wf(),
            position.wf(),
            tick_in_bounds(position.low_tick as int),
            tick_in_bounds(position.high_tick as int),
        ensures
            r matches Ok(done) ==> grown(self@, *position, amount_a@, amount_b@) == Ok::<
                Growth,
                PoolError,
            >(
                Growth {
                    deposit: done.0@,
                    ticks: done.1@,
                    active_liquidity: done.2@,
                    liquidity: done.3@,
                },
            ) && done.1.wf() && done.2@ >= 0 && done.3@ > 0,
            r matches Err(e) ==> grown(self@, *position, amount_a@, amount_b@) == Err::<
                Growth,
                PoolError,
            >(e),
    {
        let price_low = match sqrt_price_at_tick(position.low_tick) {
            Ok(price) => price,
            Err(_) => {
                return Err(PoolError::Overflow);
            },
        };
        let price_high = match sqrt_price_at_tick(position.high_tick) {
            Ok(price) => price,
            Err(_) => {
                return Err(PoolError::Overflow);
            },
        };
        let deposit = deposit_amounts(self.sqrt_price, price_low, price_high, amount_a, amount_b)?;
        proof {
            lemma_decimal_of_view(self.fee_growth_global_a);
            lemma_decimal_of_view(self.fee_growth_global_b);
        }
        let mut ticks = self.ticks.duplicate();
        if ticks.reference(
            position.low_tick,
            deposit.liquidity,
            true,
            self.current_tick,
            self.fee_growth_global_a,
            self.fee_growth_global_b,
        ).is_err() {
            return Err(PoolError::Overflow);
        }
        if ticks.reference(
            position.high_tick,
            deposit.liquidity,
            false,
            self.current_tick,
            self.fee_growth_global_a,
            self.fee_growth_global_b,
        ).is_err() {
            return Err(PoolError::Overflow);
        }
        let active = if position.low_tick <= self.current_tick && self.current_tick
            < position.high_tick {
            plus(self.active_liquidity, deposit.liquidity)?
        } else {
            self.active_liquidity
        };
        let liquidity = plus(position.liquidity, deposit.liquidity)?;
        Ok((deposit, ticks, active, liquidity))
    }

    /// Replaces the position at `index`, keeping its token and its range.
    fn replace_position(&mut self, index: usize, position: Position)
        requires
            old(self).wf(),
            index < old(self).positions@.len(),
            position.wf(),
            position.id == old(self).positions@[index as int].id,
            position.low_tick == old(self).positions@[index as int].low_tick,
            position.high_tick == old(self).positions@[index as int].high_tick,
        ensures
            positions_well_formed(final(self).positions@, final(self).next_position_id as int),
            final(self).positions@ == old(self).positions@.update(index as int, position),
            final(self).sqrt_price == old(self).sqrt_price,
            final(self).current_tick == old(self).current_tick,
            final(self).active_liquidity == old(self).active_liquidity,
            final(self).fee_growth_global_a == old(self).fee_growth_global_a,
            final(self).fee_growth_global_b == old(self).fee_growth_global_b,
            final(self).fee_rate == old(self).fee_rate,
            final(self).ticks == old(self).ticks,
            final(self).next_position_id == old(self).next_position_id,
    {
        proof {
            let after = self.positions@.update(index as int, position);
            assert forall|i: int, j: int| 0 <= i < j < after.len() implies (#[trigger] after[i]).id
                < (#[trigger] after[j]).id by {
                assert(self.positions@[i].id < self.positions@[j].id);
            }
        }
        self.positions.set(index, position);
    }

    /// Enlarges the position held under `id` by the offered amounts, and
    /// hands back what was not needed of the two assets; see `enlarged`.
    pub fn add_liquidity(&mut self, id: u64, amount_a: Decimal, amount_b: Decimal) -> (r: Result<
        (Decimal, Decimal),
        PoolError,
    >)
        requires
            old(self).wf(),
        ensures
            final(self).wf(),
            r matches Ok(refunds) ==> enlarged(old(self)@, id, amount_a@, amount_b@) == Ok::<
                Enlarged,
                PoolError,
            >(Enlarged { pool: final(self)@, refund_a: refunds.0@, refund_b: refunds.1@ }),
            r matches Err(e) ==> enlarged(old(self)@, id, amount_a@, amount_b@) == Err::<
                Enlarged,
                PoolError,
            >(e) && final(self)@ == old(self)@,
    {
        let index = match self.find_position(id) {
            Some(index) => index,
            None => {
                return Err(PoolError::InsufficientOwnership);
            },
        };
        let position = self.accrue_position(index)?;
        let (deposit, ticks, active, liquidity) = self.grow(&position, amount_a, amount_b)?;
        let refund_a = minus(amount_a, deposit.used_a)?;
        let refund_b = minus(amount_b, deposit.used_b)?;
        proof {
            lemma_decimal_of_view(liquidity);
        }
        proof {
            lemma_grown_keeps_books(
                self@,
                index as int,
                position,
                amount_a@,
                amount_b@,
                Position { liquidity, ..position },
            );
        }
        self.replace_position(index, Position { liquidity, ..position });
        self.ticks = ticks;
        self.active_liquidity = active;
        Ok((refund_a, refund_b))
    }

    /// Deposits the fees owed to the position held under `id` into it, and
    /// tells the liquidity that they bought and the fees that are still
    /// owed; see `compounded`.
    pub fn compound_fees(&mut self, id: u64) -> (r: Result<(Decimal, Decimal, Decimal), PoolError>)
        requires
            old(self).wf(),
        ensures
            final(self).wf(),
            r matches Ok(done) ==> compounded(old(self)@, id) == Ok::<Compounded, PoolError>(
                Compounded {
                    pool: final(self)@,
                    added_liquidity: done.0@,
                    owed_a: done.1@,
                    owed_b: done.2@,
                },
            ),
            r matches Err(e) ==> compounded(old(self)@, id) == Err::<Compounded, PoolError>(e)
                && final(self)@ == old(self)@,
    {
        let index = match self.find_position(id) {
            Some(index) => index,
            None => {
                return Err(PoolError::InsufficientOwnership);
            },
        };
        let position = self.accrue_position(index)?;
        let (deposit, ticks, active, liquidity) = self.grow(
            &position,
            position.owed_fee_a,
            position.owed_fee_b,
        )?;
        let owed_a = minus(position.owed_fee_a, deposit.used_a)?;
        let owed_b = minus(position.owed_fee_b, deposit.used_b)?;
        proof {
            lemma_decimal_of_view(liquidity);
            lemma_decimal_of_view(owed_a);
            lemma_decimal_of_view(owed_b);
        }
        proof {
            lemma_grown_keeps_books(
                self@,
                index as int,
                position,
                position.owed_fee_a@,
                position.owed_fee_b@,
                Position { liquidity, owed_fee_a: owed_a, owed_fee_b: owed_b, ..position },
            );
        }
        self.replace_position(
            index,
            Position { liquidity, owed_fee_a: owed_a, owed_fee_b: owed_b, ..position },
        );
        self.ticks = ticks;
        self.active_liquidity = active;
        Ok((deposit.liquidity, owed_a, owed_b))
    }
}

/// Whether `low_tick` and `high_tick` bound a range: both supported, the
/// first below the second.
pub open spec fn is_range(low_tick: int, high_tick: int) -> bool {
    tick_in_bounds(low_tick) && tick_in_bounds(high_tick) && low_tick < high_tick
}

/// Whether the range from `low_tick` to `high_tick` holds `tick`.
pub open spec fn range_holds(low_tick: int, high_tick: int, tick: int) -> bool {
    low_tick <= tick < high_tick
}

/// The fee growth outside `tick` in the two assets, zero where the tick is
/// not initialised.
pub open spec fn outside_of(ticks: Map<int, TickInfo>, tick: int) -> (int, int) {
    if ticks.dom().contains(tick) {
        (ticks[tick].fee_growth_outside_a@, ticks[tick].fee_growth_outside_b@)
    } else {
        (0, 0)
    }
}

/// The fee growth inside the range from `low_tick` to `high_tick` in the two
/// assets, as the pool stands.
pub open spec fn inside_of(pool: PoolView, ticks: Map<int, TickInfo>, low_tick: int, high_tick: int)
    -> (Option<int>, Option<int>) {
    let low = outside_of(ticks, low_tick);
    let high = outside_of(ticks, high_tick);
    (
        growth_inside(
            pool.fee_growth_global_a,
            low.0,
            high.0,
            low_tick,
            high_tick,
            pool.current_tick,
        ),
        growth_inside(
            pool.fee_growth_global_b,
            low.1,
            high.1,
            low_tick,
            high_tick,
            pool.current_tick,
        ),
    )
}

/// The ledger after `liquidity` is referenced at both ends of a range; `None`
/// where a sum cannot be held.
pub open spec fn range_referenced(pool: PoolView, low_tick: int, high_tick: int, liquidity: int)
    -> Option<Map<int, TickInfo>> {
    let global_a = decimal_of(pool.fee_growth_global_a);
    let global_b = decimal_of(pool.fee_growth_global_b);
    if reference_outcome(
        pool.ticks,
        low_tick,
        liquidity,
        true,
        pool.current_tick,
        global_a,
        global_b,
    ).is_err() {
        None
    } else {
        let lower = referenced(
            pool.ticks,
            low_tick,
            liquidity,
            true,
            pool.current_tick,
            global_a,
            global_b,
        );
        if reference_outcome(
            lower,
            high_tick,
            liquidity,
            false,
            pool.current_tick,
            global_a,
            global_b,
        ).is_err() {
            None
        } else {
            Some(
                referenced(
                    lower,
                    high_tick,
                    liquidity,
                    false,
                    pool.current_tick,
                    global_a,
                    global_b,
                ),
            )
        }
    }
}

/// The active liquidity after `liquidity` is added over a range: more by
/// `liquidity` where the range holds the current tick.
pub open spec fn active_after(pool: PoolView, low_tick: int, high_tick: int, liquidity: int)
    -> Option<int> {
    if range_holds(low_tick, high_tick, pool.current_tick) {
        sum_of(Some(pool.active_liquidity), Some(liquidity))
    } else {
        Some(pool.active_liquidity)
    }
}

/// What the opening of a position comes to.
pub struct Opened {
    /// The pool with the position.
    pub pool: PoolView,
    /// What is handed back of the first asset.
    pub refund_a: int,
    /// What is handed back of the second asset.
    pub refund_b: int,
}

/// The opening of a position over the range from `low_tick` to `high_tick`
/// with the offered amounts.
///
/// The deposit is reckoned at the current price between the square-root
/// prices of the two ticks. Its liquidity is referenced at both ticks, and
/// counted as active where the range holds the current tick. The position
/// starts with nothing owed, from the fee growth inside its range, under the
/// next token.
///
/// Refused, in this order: ticks that bound no range, as an invalid range;
/// what `deposit_for` refuses; a number that cannot be held, as an overflow.
pub open spec fn opened(
    pool: PoolView,
    low_tick: int,
    high_tick: int,
    amount_a: int,
    amount_b: int,
) -> Result<Opened, PoolError> {
    if !is_range(low_tick, high_tick) {
        Err(PoolError::InvalidRange)
    } else {
        match deposit_for(
            pool.sqrt_price,
            sqrt_price_of_tick(low_tick),
            sqrt_price_of_tick(high_tick),
            amount_a,
            amount_b,
        ) {
            Err(e) => Err(e),
            Ok(deposit) => {
                let refund_a = difference_of(Some(amount_a), Some(deposit.used_a));
                let refund_b = difference_of(Some(amount_b), Some(deposit.used_b));
                let ticks = range_referenced(pool, low_tick, high_tick, deposit.liquidity);
                if refund_a.is_none() || refund_b.is_none() || ticks.is_none() {
                    Err(PoolError::Overflow)
                } else {
                    let inside = inside_of(pool, ticks.unwrap(), low_tick, high_tick);
                    let active = active_after(pool, low_tick, high_tick, deposit.liquidity);
                    if inside.0.is_none() || inside.1.is_none() || active.is_none()
                        || pool.next_position_id >= u64::MAX {
                        Err(PoolError::Overflow)
                    } else {
                        Ok(
                            Opened {
                                pool: PoolView {
                                    active_liquidity: active.unwrap(),
                                    ticks: ticks.unwrap(),
                                    positions: pool.positions.push(
                                        Position {
                                            id: pool.next_position_id as u64,
                                            low_tick: low_tick as i32,
                                            high_tick: high_tick as i32,
                                            liquidity: decimal_of(deposit.liquidity),
                                            fee_growth_inside_a_last: decimal_of(
                                                inside.0.unwrap(),
                                            ),
                                            fee_growth_inside_b_last: decimal_of(
                                                inside.1.unwrap(),
                                            ),
                                            owed_fee_a: decimal_of(0),
                                            owed_fee_b: decimal_of(0),
                                        },
                                    ),
                                    next_position_id: pool.next_position_id + 1,
                                    ..pool
                                },
                                refund_a: refund_a.unwrap(),
                                refund_b: refund_b.unwrap(),
                            },
                        )
                    }
                }
            },
        }
    }
}

/// `position` after its fees are reckoned as the pool stands; `None` where a
/// number cannot be held.
pub open spec fn accrued(pool: PoolView, position: Position) -> Option<Position> {
    let inside = inside_of(
        pool,
        pool.ticks,
        position.low_tick as int,
        position.high_tick as int,
    );
    if inside.0.is_none() || inside.1.is_none() || !position.can_accrue(
        inside.0.unwrap(),
        inside.1.unwrap(),
    ) {
        None
    } else {
        Some(
            Position {
                fee_growth_inside_a_last: decimal_of(inside.0.unwrap()),
                fee_growth_inside_b_last: decimal_of(inside.1.unwrap()),
                owed_fee_a: decimal_of(
                    owed_after(
                        position.owed_fee_a@,
                        position.liquidity@,
                        inside.0.unwrap(),
                        position.fee_growth_inside_a_last@,
                    ).unwrap(),
                ),
                owed_fee_b: decimal_of(
                    owed_after(
                        position.owed_fee_b@,
                        position.liquidity@,
                        inside.1.unwrap(),
                        position.fee_growth_inside_b_last@,
                    ).unwrap(),
                ),
                ..position
            },
        )
    }
}

/// What a collection of fees comes to.
pub struct Collected {
    /// The pool, with nothing owed to the position.
    pub pool: PoolView,
    /// The fees handed out in the first asset.
    pub fee_a: int,
    /// The fees handed out in the second asset.
    pub fee_b: int,
}

/// The collection of the fees of the position held under `id`: its fees are
/// reckoned as the pool stands and handed out, all of them.
///
/// Refused: a token under which no position is held, as insufficient
/// ownership; a number that cannot be held, as an overflow.
pub open spec fn collected(pool: PoolView, id: u64) -> Result<Collected, PoolError> {
    if !positions_hold(pool.positions, id) {
        Err(PoolError::InsufficientOwnership)
    } else {
        let index = position_index(pool.positions, id);
        match accrued(pool, pool.positions[index]) {
            None => Err(PoolError::Overflow),
            Some(position) => Ok(
                Collected {
                    pool: PoolView {
                        positions: pool.positions.update(
                            index,
                            Position {
                                owed_fee_a: decimal_of(0),
                                owed_fee_b: decimal_of(0),
                                ..position
                            },
                        ),
                        ..pool
                    },
                    fee_a: position.owed_fee_a@,
                    fee_b: position.owed_fee_b@,
                },
            ),
        }
    }
}

/// The ledger after `liquidity` is dereferenced at both ends of a range;
/// `None` where the ledger does not count that much at one of them.
pub open spec fn range_dereferenced(
    ticks: Map<int, TickInfo>,
    low_tick: int,
    high_tick: int,
    liquidity: int,
) -> Option<Map<int, TickInfo>> {
    if dereference_outcome(ticks, low_tick, liquidity, true).is_err() {
        None
    } else {
        let lower = dereferenced(ticks, low_tick, liquidity, true);
        if dereference_outcome(lower, high_tick, liquidity, false).is_err() {
            None
        } else {
            Some(dereferenced(lower, high_tick, liquidity, false))
        }
    }
}

/// The active liquidity after `liquidity` is withdrawn from a range: less by
/// `liquidity` where the range holds the current tick; `None` where that much
/// is not active.
pub open spec fn active_without(pool: PoolView, low_tick: int, high_tick: int, liquidity: int)
    -> Option<int> {
    if range_holds(low_tick, high_tick, pool.current_tick) {
        if liquidity <= pool.active_liquidity {
            Some(pool.active_liquidity - liquidity)
        } else {
            None
        }
    } else {
        Some(pool.active_liquidity)
    }
}

/// What the closing of a position comes to.
pub struct Closed {
    /// The pool without the position.
    pub pool: PoolView,
    /// What is handed out of the first asset.
    pub amount_a: int,
    /// What is handed out of the second asset.
    pub amount_b: int,
}

/// The closing of the position held under `id`: its fees are reckoned as the
/// pool stands, its liquidity is dereferenced at both ticks and no longer
/// counted as active, and it is handed what its liquidity stands for at the
/// current price together with the fees it is owed.
///
/// Refused: a token under which no position is held, as insufficient
/// ownership; a number that cannot be held, and a ledger that counts less
/// than the position's liquidity, as an overflow.
pub open spec fn closed(pool: PoolView, id: u64) -> Result<Closed, PoolError> {
    if !positions_hold(pool.positions, id) {
        Err(PoolError::InsufficientOwnership)
    } else {
        let index = position_index(pool.positions, id);
        match accrued(pool, pool.positions[index]) {
            None => Err(PoolError::Overflow),
            Some(position) => {
                let low = position.low_tick as int;
                let high = position.high_tick as int;
                let amount_a = sum_of(
                    amount_a_for(
                        pool.sqrt_price,
                        sqrt_price_of_tick(low),
                        sqrt_price_of_tick(high),
                        position.liquidity@,
                    ),
                    Some(position.owed_fee_a@),
                );
                let amount_b = sum_of(
                    amount_b_for(
                        pool.sqrt_price,
                        sqrt_price_of_tick(low),
                        sqrt_price_of_tick(high),
                        position.liquidity@,
                    ),
                    Some(position.owed_fee_b@),
                );
                let ticks = range_dereferenced(pool.ticks, low, high, position.liquidity@);
                let active = active_without(pool, low, high, position.liquidity@);
                if amount_a.is_none() || amount_b.is_none() || ticks.is_none()
                    || active.is_none() {
                    Err(PoolError::Overflow)
                } else {
                    Ok(
                        Closed {
                            pool: PoolView {
                                active_liquidity: active.unwrap(),
                                ticks: ticks.unwrap(),
                                positions: pool.positions.remove(index),
                                ..pool
                            },
                            amount_a: amount_a.unwrap(),
                            amount_b: amount_b.unwrap(),
                        },
                    )
                }
            },
        }
    }
}

/// What a deposit into an open position changes.
pub struct Growth {
    /// The liquidity bought and the amounts kept.
    pub deposit: DepositView,
    /// The ledger, with the liquidity referenced at both ticks.
    pub ticks: Map<int, TickInfo>,
    /// The active liquidity of the pool.
    pub active_liquidity: int,
    /// The liquidity of the position.
    pub liquidity: int,
}

/// The deposit of the offered amounts into `position`, reckoned as for a new
/// position over the same range. Refused as `deposit_for` refuses, and as an
/// overflow where a number cannot be held.
pub open spec fn grown(pool: PoolView, position: Position, amount_a: int, amount_b: int) -> Result<
    Growth,
    PoolError,
> {
    let low = position.low_tick as int;
    let high = position.high_tick as int;
    match deposit_for(
        pool.sqrt_price,
        sqrt_price_of_tick(low),
        sqrt_price_of_tick(high),
        amount_a,
        amount_b,
    ) {
        Err(e) => Err(e),
        Ok(deposit) => {
            let ticks = range_referenced(pool, low, high, deposit.liquidity);
            let active = active_after(pool, low, high, deposit.liquidity);
            let liquidity = sum_of(Some(position.liquidity@), Some(deposit.liquidity));
            if ticks.is_none() || active.is_none() || liquidity.is_none() {
                Err(PoolError::Overflow)
            } else {
                Ok(
                    Growth {
                        deposit,
                        ticks: ticks.unwrap(),
                        active_liquidity: active.unwrap(),
                        liquidity: liquidity.unwrap(),
                    },
                )
            }
        },
    }
}

/// What the enlarging of a position comes to.
pub struct Enlarged {
    /// The pool with the enlarged position.
    pub pool: PoolView,
    /// What is handed back of the first asset.
    pub refund_a: int,
    /// What is handed back of the second asset.
    pub refund_b: int,
}

/// The enlarging of the position held under `id` by the offered amounts. The
/// fees of the position are reckoned first, on the liquidity it had.
///
/// Refused: a token under which no position is held, as insufficient
/// ownership; a number that cannot be held, as an overflow; what
/// `deposit_for` refuses.
pub open spec fn enlarged(pool: PoolView, id: u64, amount_a: int, amount_b: int) -> Result<
    Enlarged,
    PoolError,
> {
    if !positions_hold(pool.positions, id) {
        Err(PoolError::InsufficientOwnership)
    } else {
        let index = position_index(pool.positions, id);
        match accrued(pool, pool.positions[index]) {
            None => Err(PoolError::Overflow),
            Some(position) => match grown(pool, position, amount_a, amount_b) {
                Err(e) => Err(e),
                Ok(growth) => {
                    let refund_a = difference_of(Some(amount_a), Some(growth.deposit.used_a));
                    let refund_b = difference_of(Some(amount_b), Some(growth.deposit.used_b));
                    if refund_a.is_none() || refund_b.is_none() {
                        Err(PoolError::Overflow)
                    } else {
                        Ok(
                            Enlarged {
                                pool: PoolView {
                                    active_liquidity: growth.active_liquidity,
                                    ticks: growth.ticks,
                                    positions: pool.positions.update(
                                        index,
                                        Position {
                                            liquidity: decimal_of(growth.liquidity),
                                            ..position
                                        },
                                    ),
                                    ..pool
                                },
                                refund_a: refund_a.unwrap(),
                                refund_b: refund_b.unwrap(),
                            },
                        )
                    }
                },
            },
        }
    }
}

/// What the compounding of fees comes to.
pub struct Compounded {
    /// The pool with the enlarged position.
    pub pool: PoolView,
    /// The liquidity that the fees bought.
    pub added_liquidity: int,
    /// The fees in the first asset that are still owed.
    pub owed_a: int,
    /// The fees in the second asset that are still owed.
    pub owed_b: int,
}

/// The compounding of the fees of the position held under `id`: the fees it
/// is owed, reckoned as the pool stands, are deposited into it. What the
/// deposit does not keep stays owed.
///
/// Refused: a token under which no position is held, as insufficient
/// ownership; a number that cannot be held, as an overflow; what
/// `deposit_for` refuses.
pub open spec fn compounded(pool: PoolView, id: u64) -> Result<Compounded, PoolError> {
    if !positions_hold(pool.positions, id) {
        Err(PoolError::InsufficientOwnership)
    } else {
        let index = position_index(pool.positions, id);
        match accrued(pool, pool.positions[index]) {
            None => Err(PoolError::Overflow),
            Some(position) => match grown(
                pool,
                position,
                position.owed_fee_a@,
                position.owed_fee_b@,
            ) {
                Err(e) => Err(e),
                Ok(growth) => {
                    let owed_a = difference_of(
                        Some(position.owed_fee_a@),
                        Some(growth.deposit.used_a),
                    );
                    let owed_b = difference_of(
                        Some(position.owed_fee_b@),
                        Some(growth.deposit.used_b),
                    );
                    if owed_a.is_none() || owed_b.is_none() {
                        Err(PoolError::Overflow)
                    } else {
                        Ok(
                            Compounded {
                                pool: PoolView {
                                    active_liquidity: growth.active_liquidity,
                                    ticks: growth.ticks,
                                    positions: pool.positions.update(
                                        index,
                                        Position {
                                            liquidity: decimal_of(growth.liquidity),
                                            owed_fee_a: decimal_of(owed_a.unwrap()),
                                            owed_fee_b: decimal_of(owed_b.unwrap()),
                                            ..position
                                        },
                                    ),
                                    ..pool
                                },
                                added_liquidity: growth.deposit.liquidity,
                                owed_a: owed_a.unwrap(),
                                owed_b: owed_b.unwrap(),
                            },
                        )
                    }
                },
            },
        }
    }
}

} // verus!
