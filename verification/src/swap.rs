//! The swap: the walk of the price from tick to tick until the input is
//! spent, the price limit is met, or no liquidity lies further on.

use crate::accounting::{books_agree, gross_of, lemma_crossing_matches, lemma_liquidity_past_tick, lemma_liquidity_within_gap, net_of};
use crate::checked::{difference_of, minus, over, plus, quotient_of, sum_of};
use crate::decimal::{scale, Decimal};
use crate::error::PoolError;
use crate::pool::{positions_well_formed, tick_matches_price, Pool, PoolView};
use crate::swap_math::{compute_swap_step, lemma_step_amounts_are_not_negative, lemma_step_keeps_direction, lemma_step_takes_no_more, swap_step_of};
use crate::tick_ledger::{cross_is_held, crossed, highest_below, liquidity_activated, lowest_above, TickInfo, TickLedger};
use crate::tick_math::laws::{lemma_prices_at_the_ends, lemma_sqrt_price_in_bounds, lemma_sqrt_price_increasing, lemma_tick_at_or_below_is_greatest};
use crate::tick_math::{max_price, max_sqrt_price, MAX_TICK, min_price, min_sqrt_price, MIN_TICK, sqrt_price_at_tick, sqrt_price_in_bounds, sqrt_price_of_tick, tick_at_or_below, tick_at_sqrt_price, tick_in_bounds};
use vstd::prelude::*;

verus! {

/// A swap under way.
pub struct SwapState {
    /// The pool as the swap has left it so far.
    pub pool: PoolView,
    /// The input that is not yet spent.
    pub remaining: int,
    /// The output gathered so far.
    pub output: int,
}

/// The initialised tick that bounds the way of the price: the highest at or
/// below the current tick when asset `a` is sold, the lowest above it
/// otherwise; the end of the supported range where there is none.
#[verifier::opaque]
pub open spec fn boundary_tick(pool: PoolView, a_for_b: bool) -> int {
    if a_for_b {
        highest_below(pool.ticks, pool.current_tick + 1)
    } else {
        lowest_above(pool.ticks, pool.current_tick)
    }
}

/// The price that a step makes for: that of the boundary tick, or the limit
/// where that comes first.
pub open spec fn step_target(tick_price: int, limit: int, a_for_b: bool) -> int {
    if a_for_b {
        if tick_price >= limit {
            tick_price
        } else {
            limit
        }
    } else {
        if tick_price <= limit {
            tick_price
        } else {
            limit
        }
    }
}

/// Whether the swap has nothing more to do before it takes a step: the input
/// is spent, the price has met the limit, or no liquidity is active and no
/// initialised tick lies further on.
#[verifier::opaque]
pub open spec fn swap_is_over(state: SwapState, a_for_b: bool, limit: int) -> bool {
    ||| state.remaining <= 0
    ||| a_for_b && state.pool.sqrt_price <= limit
    ||| !a_for_b && state.pool.sqrt_price >= limit
    ||| state.pool.active_liquidity == 0 && !state.pool.ticks.dom().contains(
        boundary_tick(state.pool, a_for_b),
    )
}

/// The swap after the price has moved towards the boundary tick: with no
/// active liquidity the price is set on the target and nothing changes hands;
/// otherwise a step is taken, its input and fee leave what remains, its
/// output joins what was gathered, and its fee, per unit of active liquidity,
/// joins the fee growth of the asset sold. `None` where a number cannot be
/// held.
#[verifier::opaque]
pub open spec fn after_move(state: SwapState, a_for_b: bool, limit: int) -> Option<SwapState> {
    let pool = state.pool;
    let target = step_target(
        sqrt_price_of_tick(boundary_tick(pool, a_for_b)),
        limit,
        a_for_b,
    );
    if pool.active_liquidity == 0 {
        Some(SwapState { pool: PoolView { sqrt_price: target, ..pool }, ..state })
    } else {
        match swap_step_of(
            pool.sqrt_price,
            target,
            pool.active_liquidity,
            state.remaining,
            pool.fee_rate,
            a_for_b,
        ) {
            None => None,
            Some(step) => {
                let remaining = difference_of(
                    difference_of(Some(state.remaining), Some(step.amount_in)),
                    Some(step.fee),
                );
                let output = sum_of(Some(state.output), Some(step.amount_out));
                let earned = quotient_of(Some(step.fee), Some(pool.active_liquidity));
                let growth_a = if a_for_b {
                    sum_of(Some(pool.fee_growth_global_a), earned)
                } else {
                    Some(pool.fee_growth_global_a)
                };
                let growth_b = if a_for_b {
                    Some(pool.fee_growth_global_b)
                } else {
                    sum_of(Some(pool.fee_growth_global_b), earned)
                };
                if remaining.is_none() || output.is_none() || growth_a.is_none()
                    || growth_b.is_none() {
                    None
                } else {
                    Some(
                        SwapState {
                            pool: PoolView {
                                sqrt_price: step.sqrt_price,
                                fee_growth_global_a: growth_a.unwrap(),
                                fee_growth_global_b: growth_b.unwrap(),
                                ..pool
                            },
                            remaining: remaining.unwrap(),
                            output: output.unwrap(),
                        },
                    )
                }
            },
        }
    }
}

/// The pool after the price, having met the square-root price of `tick`,
/// crosses it: the fee growth outside the tick is flipped, the liquidity that
/// the crossing activates joins the active liquidity, and the current tick
/// becomes `tick` when the price rises and the tick below it when the price
/// falls. `None` where a number cannot be held or the active liquidity would
/// fall below zero.
#[verifier::opaque]
pub open spec fn after_crossing(pool: PoolView, tick: int, a_for_b: bool) -> Option<PoolView> {
    let active = sum_of(
        Some(pool.active_liquidity),
        Some(liquidity_activated(pool.ticks, tick, !a_for_b)),
    );
    if !cross_is_held(
        pool.ticks,
        tick,
        pool.fee_growth_global_a,
        pool.fee_growth_global_b,
        !a_for_b,
    ) || active.is_none() || active.unwrap() < 0 {
        None
    } else {
        Some(
            PoolView {
                ticks: crossed(
                    pool.ticks,
                    tick,
                    pool.fee_growth_global_a,
                    pool.fee_growth_global_b,
                ),
                active_liquidity: active.unwrap(),
                current_tick: if a_for_b {
                    tick - 1
                } else {
                    tick
                },
                ..pool
            },
        )
    }
}

/// One round of a swap that is not over: the swap after it, and whether
/// another round follows.
///
/// The price moves towards the boundary tick. If it meets the square-root
/// price of that tick, the tick is crossed and the swap goes on, except at
/// the ends of the supported range: the lowest tick is met but not crossed,
/// and the swap stops on either end. If it stops short, the current tick
/// becomes the tick at or below the price and the swap stops.
#[verifier::opaque]
pub open spec fn swap_round(state: SwapState, a_for_b: bool, limit: int) -> Result<
    (SwapState, bool),
    PoolError,
> {
    match after_move(state, a_for_b, limit) {
        None => Err(PoolError::Overflow),
        Some(moved) => settled(moved, boundary_tick(state.pool, a_for_b), a_for_b),
    }
}

/// The current tick once the price has come to rest at `price` short of the
/// boundary tick: the tick at or below `price`, but when the price has fallen
/// never a tick above the former current tick, which a price resting on the
/// square-root price of the tick above it would give.
pub open spec fn resting_tick(price: int, former: int, a_for_b: bool) -> int {
    let below = tick_at_or_below(price);
    if a_for_b && below > former {
        former
    } else {
        below
    }
}

/// The end of a round, once the price has moved towards `tick`; see
/// `swap_round`.
#[verifier::opaque]
pub open spec fn settled(moved: SwapState, tick: int, a_for_b: bool) -> Result<
    (SwapState, bool),
    PoolError,
> {
    if moved.pool.sqrt_price != sqrt_price_of_tick(tick) {
        Ok(
            (
                SwapState {
                    pool: PoolView {
                        current_tick: resting_tick(
                            moved.pool.sqrt_price,
                            moved.pool.current_tick,
                            a_for_b,
                        ),
                        ..moved.pool
                    },
                    ..moved
                },
                false,
            ),
        )
    } else if a_for_b && tick == MIN_TICK {
        Ok((SwapState { pool: PoolView { current_tick: tick, ..moved.pool }, ..moved }, false))
    } else {
        match after_crossing(moved.pool, tick, a_for_b) {
            None => Err(PoolError::Overflow),
            Some(pool) => Ok((SwapState { pool, ..moved }, a_for_b || tick != MAX_TICK)),
        }
    }
}

/// How far the current tick is from the end of the supported range that the
/// price is moving towards.
pub open spec fn ticks_ahead(pool: PoolView, a_for_b: bool) -> int {
    if a_for_b {
        pool.current_tick - MIN_TICK
    } else {
        MAX_TICK - pool.current_tick
    }
}

/// The swap run to its end: round after round until it is over or a round is
/// the last.
pub open spec fn swap_run(state: SwapState, a_for_b: bool, limit: int) -> Result<
    SwapState,
    PoolError,
>
    decreases ticks_ahead(state.pool, a_for_b),
{
    if swap_is_over(state, a_for_b, limit) {
        Ok(state)
    } else {
        match swap_round(state, a_for_b, limit) {
            Err(e) => Err(e),
            Ok((next, go_on)) => if go_on && 0 <= ticks_ahead(next.pool, a_for_b) < ticks_ahead(
                state.pool,
                a_for_b,
            ) {
                swap_run(next, a_for_b, limit)
            } else {
                Ok(next)
            },
        }
    }
}

/// What a swap comes to.
pub struct Swapped {
    /// The pool after the swap.
    pub pool: PoolView,
    /// What the swap pays out of the asset bought.
    pub output: int,
    /// What the swap hands back of the asset sold.
    pub unused: int,
}

/// The swap of `amount` of asset `a` for asset `b`, or the reverse, with the
/// price kept from passing `limit`.
///
/// Refused: a negative amount and a limit outside the supported prices, as
/// out of bounds; a number that cannot be held, as an overflow.
pub open spec fn swapped(pool: PoolView, amount: int, a_for_b: bool, limit: int) -> Result<
    Swapped,
    PoolError,
> {
    if amount < 0 || !sqrt_price_in_bounds(limit) {
        Err(PoolError::OutOfBounds)
    } else {
        match swap_run(SwapState { pool, remaining: amount, output: 0 }, a_for_b, limit) {
            Err(e) => Err(e),
            Ok(state) => Ok(
                Swapped { pool: state.pool, output: state.output, unused: state.remaining },
            ),
        }
    }
}

/// Whether no tick of the ledger lies between the current tick and the
/// boundary tick `next`: none above `next` and at or below `current` when the
/// price falls, none above `current` and below `next` when it rises.
pub open spec fn nothing_between(
    ticks: Map<int, TickInfo>,
    current: int,
    next: int,
    a_for_b: bool,
) -> bool {
    if a_for_b {
        forall|u: int| ticks.dom().contains(u) && u <= current ==> u <= next
    } else {
        forall|u: int| ticks.dom().contains(u) && u > current ==> next <= u
    }
}

/// A swap under way, as the pool works on it.
struct Walk {
    price: Decimal,
    tick: i32,
    active: Decimal,
    growth_a: Decimal,
    growth_b: Decimal,
    rate: Decimal,
    ticks: TickLedger,
    remaining: Decimal,
    output: Decimal,
    /// The pool that the swap started from.
    base: Ghost<PoolView>,
}

impl Walk {
    /// The swap under way as plain values.
    spec fn state(&self) -> SwapState {
        SwapState {
            pool: PoolView {
                sqrt_price: self.price@,
                current_tick: self.tick as int,
                active_liquidity: self.active@,
                fee_growth_global_a: self.growth_a@,
                fee_growth_global_b: self.growth_b@,
                ticks: self.ticks@,
                ..self.base@
            },
            remaining: self.remaining@,
            output: self.output@,
        }
    }

    /// What holds of a swap between rounds.
    spec fn wf(&self) -> bool {
        &&& self.ticks.wf()
        &&& tick_matches_price(self.tick as int, self.price@)
        &&& self.active@ >= 0
        &&& 0 <= self.rate@ < scale()
        &&& self.base@.fee_rate == self.rate@
        &&& positions_well_formed(self.base@.positions, self.base@.next_position_id)
        &&& books_agree(self.state().pool)
    }

    /// The tick that bounds the way of the price.
    fn boundary(&self, a_for_b: bool) -> (next: i32)
        requires
            self.wf(),
        ensures
            next == boundary_tick(self.state().pool, a_for_b),
            tick_in_bounds(next as int),
            a_for_b ==> next <= self.tick,
            !a_for_b && self.tick < MAX_TICK ==> next > self.tick,
            nothing_between(self.ticks@, self.tick as int, next as int, a_for_b),
    {
        proof {
            reveal(boundary_tick);
        }
        if a_for_b {
            self.ticks.next_initialized_tick(self.tick + 1, false)
        } else {
            self.ticks.next_initialized_tick(self.tick, true)
        }
    }

    /// Whether the swap has nothing more to do.
    fn is_over(&self, next: i32, a_for_b: bool, limit: &Decimal) -> (over: bool)
        requires
            self.wf(),
            next == boundary_tick(self.state().pool, a_for_b),
        ensures
            over == swap_is_over(self.state(), a_for_b, limit@),
    {
        proof {
            reveal(swap_is_over);
        }
        let zero = Decimal::zero();
        if self.remaining.le(&zero) {
            return true;
        }
        if a_for_b && self.price.le(limit) {
            return true;
        }
        if !a_for_b && self.price.ge(limit) {
            return true;
        }
        self.active.eq(&zero) && self.ticks.get(next).is_none()
    }

    /// Moves the price towards the tick `next`, whose square-root price is
    /// `tick_price`; see `after_move`.
    fn advance(&mut self, tick_price: Decimal, a_for_b: bool, limit: Decimal) -> (r: Result<
        (),
        PoolError,
    >)
        requires
            old(self).wf(),
            sqrt_price_in_bounds(limit@),
            sqrt_price_in_bounds(tick_price@),
            tick_price@ == sqrt_price_of_tick(boundary_tick(old(self).state().pool, a_for_b)),
            a_for_b ==> tick_price@ <= old(self).price@ && limit@ <= old(self).price@,
            !a_for_b ==> tick_price@ >= old(self).price@ && limit@ >= old(self).price@,
            old(self).remaining@ >= 0,
        ensures
            r.is_ok() ==> after_move(old(self).state(), a_for_b, limit@) == Some(
                final(self).state(),
            ),
            r.is_err() ==> after_move(old(self).state(), a_for_b, limit@).is_none(),
            r matches Err(e) ==> e == PoolError::Overflow,
            final(self).base == old(self).base,
            final(self).rate == old(self).rate,
            r.is_ok() ==> {
                &&& final(self).ticks == old(self).ticks
                &&& final(self).tick == old(self).tick
                &&& final(self).active == old(self).active
                &&& final(self).rate == old(self).rate
                &&& final(self).base == old(self).base
                &&& books_agree(final(self).state().pool)
                &&& sqrt_price_in_bounds(final(self).price@)
                &&& a_for_b ==> tick_price@ <= final(self).price@ <= old(self).price@
                &&& !a_for_b ==> old(self).price@ <= final(self).price@ <= tick_price@
                &&& a_for_b ==> limit@ <= final(self).price@
                &&& !a_for_b ==> final(self).price@ <= limit@
                &&& 0 <= final(self).remaining@ <= old(self).remaining@
                &&& final(self).output@ >= old(self).output@
            },
    {
        proof {
            reveal(after_move);
        }
        let zero = Decimal::zero();
        let target = if a_for_b {
            if tick_price.ge(&limit) {
                tick_price
            } else {
                limit
            }
        } else {
            if tick_price.le(&limit) {
                tick_price
            } else {
                limit
            }
        };
        if self.active.eq(&zero) {
            self.price = target;
        } else {
            let step = compute_swap_step(
                self.price,
                target,
                self.active,
                self.remaining,
                self.rate,
                a_for_b,
            )?;
            proof {
                lemma_step_keeps_direction(
                    self.price@,
                    target@,
                    self.active@,
                    self.remaining@,
                    self.rate@,
                    a_for_b,
                );
                lemma_step_amounts_are_not_negative(
                    self.price@,
                    target@,
                    self.active@,
                    self.remaining@,
                    self.rate@,
                    a_for_b,
                );
                lemma_step_takes_no_more(
                    self.price@,
                    target@,
                    self.active@,
                    self.remaining@,
                    self.rate@,
                    a_for_b,
                );
            }
            let left = minus(minus(self.remaining, step.amount_in)?, step.fee)?;
            let gathered = plus(self.output, step.amount_out)?;
            let earned = over(step.fee, self.active)?;
            if a_for_b {
                let growth = plus(self.growth_a, earned)?;
                self.growth_a = growth;
            } else {
                let growth = plus(self.growth_b, earned)?;
                self.growth_b = growth;
            }
            self.remaining = left;
            self.output = gathered;
            self.price = step.sqrt_price;
        }
        Ok(())
    }

    /// Ends a round once the price has moved towards the tick `next`, and
    /// tells whether another round follows; see `settled`.
    fn settle(&mut self, next: i32, tick_price: Decimal, a_for_b: bool) -> (r: Result<
        bool,
        PoolError,
    >)
        requires
            old(self).ticks.wf(),
            old(self).active@ >= 0,
            0 <= old(self).rate@ < scale(),
            old(self).base@.fee_rate == old(self).rate@,
            tick_in_bounds(old(self).tick as int),
            tick_in_bounds(next as int),
            sqrt_price_in_bounds(old(self).price@),
            tick_price@ == sqrt_price_of_tick(next as int),
            a_for_b ==> next <= old(self).tick,
            !a_for_b ==> next > old(self).tick,
            a_for_b && old(self).tick < MAX_TICK ==> old(self).price@ <= sqrt_price_of_tick(
                old(self).tick + 1,
            ),
            a_for_b ==> tick_price@ <= old(self).price@,
            !a_for_b ==> sqrt_price_of_tick(old(self).tick as int) <= old(self).price@
                <= tick_price@,
            positions_well_formed(old(self).base@.positions, old(self).base@.next_position_id),
            books_agree(old(self).state().pool),
            nothing_between(old(self).ticks@, old(self).tick as int, next as int, a_for_b),
        ensures
            r matches Ok(go_on) ==> settled(old(self).state(), next as int, a_for_b) == Ok::<
                (SwapState, bool),
                PoolError,
            >((final(self).state(), go_on)) && final(self).wf() && (go_on ==> 0 <= ticks_ahead(
                final(self).state().pool,
                a_for_b,
            ) < ticks_ahead(old(self).state().pool, a_for_b)),
            r matches Err(e) ==> e == PoolError::Overflow && settled(
                old(self).state(),
                next as int,
                a_for_b,
            ) == Err::<(SwapState, bool), PoolError>(PoolError::Overflow),
            final(self).base == old(self).base,
            final(self).rate == old(self).rate,
            final(self).price == old(self).price,
            final(self).remaining == old(self).remaining,
            final(self).output == old(self).output,
    {
        proof {
            reveal(settled);
            reveal(after_crossing);
        }
        let zero = Decimal::zero();
        if !self.price.eq(&tick_price) {
            let found = match tick_at_sqrt_price(self.price) {
                Ok(found) => found,
                Err(_) => {
                    return Err(PoolError::Overflow);
                },
            };
            proof {
                let positions = self.base@.positions;
                lemma_tick_at_or_below_is_greatest(self.price@, next as int);
                lemma_tick_at_or_below_is_greatest(self.price@, self.tick as int);
                if a_for_b {
                    if found <= self.tick {
                        lemma_liquidity_within_gap(
                            positions,
                            self.ticks@,
                            found as int,
                            self.tick as int,
                        );
                    } else {
                        lemma_sqrt_price_increasing(self.tick as int, found as int);
                    }
                } else {
                    lemma_liquidity_within_gap(
                        positions,
                        self.ticks@,
                        self.tick as int,
                        found as int,
                    );
                }
            }
            if !(a_for_b && found > self.tick) {
                self.tick = found;
            }
            Ok(false)
        } else if a_for_b && next == MIN_TICK {
            proof {
                lemma_sqrt_price_increasing(next as int, next + 1);
                lemma_liquidity_within_gap(
                    self.base@.positions,
                    self.ticks@,
                    next as int,
                    self.tick as int,
                );
            }
            self.tick = next;
            Ok(false)
        } else {
            proof {
                let positions = self.base@.positions;
                if a_for_b {
                    lemma_liquidity_past_tick(
                        positions,
                        self.ticks@,
                        next - 1,
                        next as int,
                        self.tick as int,
                    );
                } else {
                    lemma_liquidity_past_tick(
                        positions,
                        self.ticks@,
                        self.tick as int,
                        next as int,
                        next as int,
                    );
                }
                lemma_crossing_matches(
                    self.ticks@,
                    gross_of(positions),
                    net_of(positions),
                    next as int,
                    self.growth_a@,
                    self.growth_b@,
                );
            }
            let activated = match self.ticks.cross(next, self.growth_a, self.growth_b, !a_for_b) {
                Ok(found) => found,
                Err(_) => {
                    return Err(PoolError::Overflow);
                },
            };
            let raised = match plus(self.active, activated) {
                Ok(found) => found,
                Err(_) => {
                    return Err(PoolError::Overflow);
                },
            };
            if raised.lt(&zero) {
                return Err(PoolError::Overflow);
            }
            proof {
                if next - 1 >= MIN_TICK {
                    lemma_sqrt_price_increasing(next - 1, next as int);
                }
                if next < MAX_TICK {
                    lemma_sqrt_price_increasing(next as int, next + 1);
                }
            }
            self.active = raised;
            self.tick = if a_for_b {
                next - 1
            } else {
                next
            };
            Ok(a_for_b || next != MAX_TICK)
        }
    }

    /// One round of a swap that is not over; see `swap_round`.
    fn round(&mut self, next: i32, a_for_b: bool, limit: Decimal) -> (r: Result<bool, PoolError>)
        requires
            old(self).wf(),
            sqrt_price_in_bounds(limit@),
            !swap_is_over(old(self).state(), a_for_b, limit@),
            next == boundary_tick(old(self).state().pool, a_for_b),
            tick_in_bounds(next as int),
            a_for_b ==> next <= old(self).tick,
            !a_for_b && old(self).tick < MAX_TICK ==> next > old(self).tick,
            nothing_between(old(self).ticks@, old(self).tick as int, next as int, a_for_b),
        ensures
            r matches Ok(go_on) ==> swap_round(old(self).state(), a_for_b, limit@) == Ok::<
                (SwapState, bool),
                PoolError,
            >((final(self).state(), go_on)) && final(self).wf() && (go_on ==> 0 <= ticks_ahead(
                final(self).state().pool,
                a_for_b,
            ) < ticks_ahead(old(self).state().pool, a_for_b)),
            r matches Err(e) ==> e == PoolError::Overflow && swap_round(
                old(self).state(),
                a_for_b,
                limit@,
            ) == Err::<(SwapState, bool), PoolError>(PoolError::Overflow),
            final(self).base == old(self).base,
            final(self).rate == old(self).rate,
            r.is_ok() ==> {
                &&& a_for_b ==> limit@ <= final(self).price@ <= old(self).price@
                &&& !a_for_b ==> old(self).price@ <= final(self).price@ <= limit@
                &&& 0 <= final(self).remaining@ <= old(self).remaining@
                &&& final(self).output@ >= old(self).output@
            },
    {
        proof {
            reveal(swap_round);
            reveal(swap_is_over);
        }
        proof {
            lemma_prices_at_the_ends();
            lemma_sqrt_price_in_bounds(next as int);
            if next < self.tick {
                lemma_sqrt_price_increasing(next as int, self.tick as int);
            }
            if self.tick + 1 < next {
                lemma_sqrt_price_increasing(self.tick + 1, next as int);
            }
        }
        let tick_price = match sqrt_price_at_tick(next) {
            Ok(found) => found,
            Err(_) => {
                return Err(PoolError::Overflow);
            },
        };
        self.advance(tick_price, a_for_b, limit)?;
        self.settle(next, tick_price, a_for_b)
    }
}

impl Pool {
    /// Swaps `amount` of asset `a` for asset `b` when `a_for_b`, of asset
    /// `b` for asset `a` otherwise, with the price kept from passing
    /// `limit`. Hands back what the swap pays out and what it did not spend;
    /// see `swapped`.
    pub fn swap_with_limit(&mut self, amount: Decimal, a_for_b: bool, limit: Decimal) -> (r:
        Result<(Decimal, Decimal), PoolError>)
        requires
            old(self).wf(),
        ensures
            final(self).wf(),
            r matches Ok(done) ==> swapped(old(self)@, amount@, a_for_b, limit@) == Ok::<
                Swapped,
                PoolError,
            >(Swapped { pool: final(self)@, output: done.0@, unused: done.1@ }),
            r matches Err(e) ==> swapped(old(self)@, amount@, a_for_b, limit@) == Err::<
                Swapped,
                PoolError,
            >(e) && final(self)@ == old(self)@,
            r matches Ok(done) ==> {
                &&& done.0@ >= 0
                &&& 0 <= done.1@ <= amount@
                &&& a_for_b ==> final(self).sqrt_price@ <= old(self).sqrt_price@
                &&& !a_for_b ==> final(self).sqrt_price@ >= old(self).sqrt_price@
                &&& a_for_b && limit@ <= old(self).sqrt_price@ ==> final(self).sqrt_price@
                    >= limit@
                &&& !a_for_b && limit@ >= old(self).sqrt_price@ ==> final(self).sqrt_price@
                    <= limit@
            },
    {
        let zero = Decimal::zero();
        if amount.lt(&zero) || limit.lt(&min_price()) || limit.gt(&max_price()) {
            return Err(PoolError::OutOfBounds);
        }
        let mut walk = Walk {
            price: self.sqrt_price,
            tick: self.current_tick,
            active: self.active_liquidity,
            growth_a: self.fee_growth_global_a,
            growth_b: self.fee_growth_global_b,
            rate: self.fee_rate,
            ticks: self.ticks.duplicate(),
            remaining: amount,
            output: zero,
            base: Ghost(self@),
        };
        let ghost start = SwapState { pool: self@, remaining: amount@, output: 0 };
        assert(walk.state() == start);
        let mut go_on = true;
        while go_on
            invariant
                *self == *old(self),
                self.wf(),
                amount@ >= 0,
                start == (SwapState { pool: self@, remaining: amount@, output: 0 }),
                0 <= walk.remaining@ <= amount@,
                walk.output@ >= 0,
                a_for_b ==> walk.price@ <= self.sqrt_price@,
                !a_for_b ==> walk.price@ >= self.sqrt_price@,
                a_for_b && limit@ <= self.sqrt_price@ ==> limit@ <= walk.price@,
                !a_for_b && limit@ >= self.sqrt_price@ ==> walk.price@ <= limit@,
                walk.wf(),
                walk.base@ == self@,
                sqrt_price_in_bounds(limit@),
                go_on ==> swap_run(walk.state(), a_for_b, limit@) == swap_run(
                    start,
                    a_for_b,
                    limit@,
                ),
                !go_on ==> swap_run(start, a_for_b, limit@) == Ok::<SwapState, PoolError>(
                    walk.state(),
                ),
            decreases
                    if go_on {
                        1 + ticks_ahead(walk.state().pool, a_for_b)
                    } else {
                        0
                    },
        {
            let next = walk.boundary(a_for_b);
            if walk.is_over(next, a_for_b, &limit) {
                go_on = false;
            } else {
                let ghost here = walk.state();
                match walk.round(next, a_for_b, limit) {
                    Ok(another) => {
                        assert(swap_run(here, a_for_b, limit@) == if another {
                            swap_run(walk.state(), a_for_b, limit@)
                        } else {
                            Ok::<SwapState, PoolError>(walk.state())
                        });
                        go_on = another;
                    },
                    Err(e) => {
                        assert(swap_run(here, a_for_b, limit@) == Err::<SwapState, PoolError>(e));
                        return Err(e);
                    },
                }
            }
        }
        self.sqrt_price = walk.price;
        self.current_tick = walk.tick;
        self.active_liquidity = walk.active;
        self.fee_growth_global_a = walk.growth_a;
        self.fee_growth_global_b = walk.growth_b;
        self.ticks = walk.ticks;
        Ok((walk.output, walk.remaining))
    }

    /// Swaps `amount` of asset `a` for asset `b` when `a_for_b`, of asset
    /// `b` for asset `a` otherwise, as far as the supported prices reach.
    pub fn swap(&mut self, amount: Decimal, a_for_b: bool) -> (r: Result<
        (Decimal, Decimal),
        PoolError,
    >)
        requires
            old(self).wf(),
        ensures
            final(self).wf(),
            r matches Ok(done) ==> swapped(
                old(self)@,
                amount@,
                a_for_b,
                full_range_limit(a_for_b),
            ) == Ok::<Swapped, PoolError>(
                Swapped { pool: final(self)@, output: done.0@, unused: done.1@ },
            ),
            r matches Err(e) ==> swapped(old(self)@, amount@, a_for_b, full_range_limit(a_for_b))
                == Err::<Swapped, PoolError>(e) && final(self)@ == old(self)@,
            r matches Ok(done) ==> {
                &&& done.0@ >= 0
                &&& 0 <= done.1@ <= amount@
                &&& a_for_b ==> final(self).sqrt_price@ <= old(self).sqrt_price@
                &&& !a_for_b ==> final(self).sqrt_price@ >= old(self).sqrt_price@
            },
    {
        let limit = if a_for_b {
            min_price()
        } else {
            max_price()
        };
        self.swap_with_limit(amount, a_for_b, limit)
    }
}

/// The limit of a swap that may move the price as far as the supported prices
/// reach.
pub open spec fn full_range_limit(a_for_b: bool) -> int {
    if a_for_b {
        min_sqrt_price()
    } else {
        max_sqrt_price()
    }
}

} // verus!
