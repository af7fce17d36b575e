//! What holds of the operations of a pool taken together.

use crate::accounting::{books_agree, gross_at, gross_of, lemma_deposit_keeps_books, lemma_matches_the_same, lemma_sums_after_push, lemma_sums_after_remove, lemma_sums_after_update, lemma_withdrawal_keeps_books, net_at, net_of};
use crate::decimal::{decimal_of, is_held, lemma_decimal_of_held, lemma_decimal_of_view, Decimal};
use crate::error::PoolError;
use crate::liquidity::{deposit_for, lemma_deposit_covers_its_liquidity};
use crate::pool::{accrued, closed, collected, grown, inside_of, opened, position_index, positions_hold, positions_well_formed, Collected, PoolView};
use crate::position::{lemma_second_collection_is_empty, Position};
use crate::tick_ledger::{dereference_outcome, dereferenced, record_or_fresh, referenced, signed_delta, TickInfo};
use crate::tick_math::laws::{lemma_sqrt_price_in_bounds, lemma_sqrt_price_increasing};
use crate::tick_math::sqrt_price_of_tick;
use crate::tick_math::tick_in_bounds;
use vstd::prelude::*;

verus! {

/// Among well-formed positions, the one at index `i` is the one held under
/// its token.
pub proof fn lemma_index_of_held(positions: Seq<Position>, next_id: int, i: int)
    requires
        positions_well_formed(positions, next_id),
        0 <= i < positions.len(),
    ensures
        positions_hold(positions, positions[i].id),
        position_index(positions, positions[i].id) == i,
{
    let j = position_index(positions, positions[i].id);
    assert(0 <= j < positions.len() && positions[j].id == positions[i].id);
    if j < i {
        assert(positions[j].id < positions[i].id);
    } else if i < j {
        assert(positions[i].id < positions[j].id);
    }
}

/// Collecting the fees of a position twice, with nothing between the two,
/// hands out nothing the second time and leaves the pool as the first
/// collection left it.
pub proof fn lemma_collecting_again_hands_out_nothing(pool: PoolView, id: u64)
    requires
        positions_well_formed(pool.positions, pool.next_position_id),
        collected(pool, id).is_ok(),
    ensures
        collected(collected(pool, id).unwrap().pool, id) == Ok::<Collected, PoolError>(
            Collected { pool: collected(pool, id).unwrap().pool, fee_a: 0, fee_b: 0 },
        ),
{
    let index = position_index(pool.positions, id);
    let first = collected(pool, id).unwrap();
    let after = first.pool;
    let reckoned = accrued(pool, pool.positions[index]).unwrap();
    let settled = after.positions[index];
    let inside = inside_of(pool, pool.ticks, settled.low_tick as int, settled.high_tick as int);
    lemma_decimal_of_held(0);
    lemma_decimal_of_held(inside.0.unwrap());
    lemma_decimal_of_held(inside.1.unwrap());
    Decimal::lemma_view_bounds(settled.liquidity);
    assert(positions_well_formed(after.positions, after.next_position_id)) by {
        assert forall|i: int, j: int| 0 <= i < j < after.positions.len() implies (
        #[trigger] after.positions[i]).id < (#[trigger] after.positions[j]).id by {
            assert(pool.positions[i].id < pool.positions[j].id);
        }
        assert forall|i: int| 0 <= i < after.positions.len() implies {
            &&& (#[trigger] after.positions[i]).wf()
            &&& tick_in_bounds(after.positions[i].low_tick as int)
            &&& tick_in_bounds(after.positions[i].high_tick as int)
            &&& after.positions[i].id < after.next_position_id
        } by {
            assert(pool.positions[i].wf());
        }
    }
    lemma_index_of_held(after.positions, after.next_position_id, index);
    lemma_second_collection_is_empty(settled.liquidity@, inside.0.unwrap());
    lemma_second_collection_is_empty(settled.liquidity@, inside.1.unwrap());
    let again = accrued(after, settled).unwrap();
    assert(again == settled);
    assert(after.positions.update(index, settled) =~= after.positions);
}

/// Opening a position keeps the books in step.
pub proof fn lemma_opened_keeps_books(
    pool: PoolView,
    low_tick: int,
    high_tick: int,
    amount_a: int,
    amount_b: int,
)
    requires
        books_agree(pool),
        positions_well_formed(pool.positions, pool.next_position_id),
        opened(pool, low_tick, high_tick, amount_a, amount_b).is_ok(),
    ensures
        books_agree(opened(pool, low_tick, high_tick, amount_a, amount_b).unwrap().pool),
{
    let after = opened(pool, low_tick, high_tick, amount_a, amount_b).unwrap().pool;
    let position = after.positions.last();
    let deposit = deposit_for(
        pool.sqrt_price,
        sqrt_price_of_tick(low_tick),
        sqrt_price_of_tick(high_tick),
        amount_a,
        amount_b,
    ).unwrap();
    let delta = deposit.liquidity;
    lemma_deposit_is_held(
        pool.sqrt_price,
        sqrt_price_of_tick(low_tick),
        sqrt_price_of_tick(high_tick),
        amount_a,
        amount_b,
    );
    lemma_decimal_of_held(delta);
    assert(after.positions =~= pool.positions.push(position));
    assert forall|t: int|
        gross_at(after.positions, t) == #[trigger] gross_at(pool.positions, t) + (if t
            == low_tick {
            delta
        } else {
            0
        }) + (if t == high_tick {
            delta
        } else {
            0
        }) by {
        lemma_sums_after_push(pool.positions, position, t);
    }
    assert forall|t: int|
        net_at(after.positions, t) == #[trigger] net_at(pool.positions, t) + (if t == low_tick {
            delta
        } else {
            0
        }) - (if t == high_tick {
            delta
        } else {
            0
        }) by {
        lemma_sums_after_push(pool.positions, position, t);
    }
    lemma_sums_after_push(pool.positions, position, pool.current_tick);
    lemma_deposit_keeps_books(
        pool,
        after.positions,
        low_tick,
        high_tick,
        delta,
        decimal_of(pool.fee_growth_global_a),
        decimal_of(pool.fee_growth_global_b),
    );
}

/// The liquidity of a deposit is positive and can be held.
pub proof fn lemma_deposit_is_held(price: int, low: int, high: int, amount_a: int, amount_b: int)
    requires
        deposit_for(price, low, high, amount_a, amount_b).is_ok(),
    ensures
        deposit_for(price, low, high, amount_a, amount_b).unwrap().liquidity > 0,
        is_held(deposit_for(price, low, high, amount_a, amount_b).unwrap().liquidity),
{
}

/// Collecting fees keeps the books in step.
pub proof fn lemma_collected_keeps_books(pool: PoolView, id: u64)
    requires
        books_agree(pool),
        positions_well_formed(pool.positions, pool.next_position_id),
        collected(pool, id).is_ok(),
    ensures
        books_agree(collected(pool, id).unwrap().pool),
{
    let after = collected(pool, id).unwrap().pool;
    let index = position_index(pool.positions, id);
    assert forall|t: int| #[trigger]
        gross_of(pool.positions)(t) == gross_of(after.positions)(t) by {
        lemma_sums_after_update(pool.positions, index, after.positions[index], t);
    }
    assert forall|t: int| #[trigger] net_of(pool.positions)(t) == net_of(after.positions)(t) by {
        lemma_sums_after_update(pool.positions, index, after.positions[index], t);
    }
    lemma_sums_after_update(pool.positions, index, after.positions[index], pool.current_tick);
    lemma_matches_the_same(
        pool.ticks,
        gross_of(pool.positions),
        net_of(pool.positions),
        gross_of(after.positions),
        net_of(after.positions),
    );
}

/// Closing a position keeps the books in step.
pub proof fn lemma_closed_keeps_books(pool: PoolView, id: u64)
    requires
        books_agree(pool),
        positions_well_formed(pool.positions, pool.next_position_id),
        closed(pool, id).is_ok(),
    ensures
        books_agree(closed(pool, id).unwrap().pool),
{
    let after = closed(pool, id).unwrap().pool;
    let index = position_index(pool.positions, id);
    let position = pool.positions[index];
    let delta = position.liquidity@;
    assert(position.wf());
    assert forall|t: int|
        gross_at(after.positions, t) == #[trigger] gross_at(pool.positions, t) - (if t
            == position.low_tick {
            delta
        } else {
            0
        }) - (if t == position.high_tick {
            delta
        } else {
            0
        }) by {
        lemma_sums_after_remove(pool.positions, index, t);
    }
    assert forall|t: int|
        net_at(after.positions, t) == #[trigger] net_at(pool.positions, t) - (if t
            == position.low_tick {
            delta
        } else {
            0
        }) + (if t == position.high_tick {
            delta
        } else {
            0
        }) by {
        lemma_sums_after_remove(pool.positions, index, t);
    }
    lemma_sums_after_remove(pool.positions, index, pool.current_tick);
    lemma_withdrawal_keeps_books(
        pool,
        after.positions,
        position.low_tick as int,
        position.high_tick as int,
        delta,
    );
}

/// A deposit into an open position keeps the books in step, whatever becomes
/// of the fees that the position is owed.
pub proof fn lemma_grown_keeps_books(
    pool: PoolView,
    index: int,
    position: Position,
    amount_a: int,
    amount_b: int,
    enlarged: Position,
)
    requires
        books_agree(pool),
        positions_well_formed(pool.positions, pool.next_position_id),
        0 <= index < pool.positions.len(),
        position.low_tick == pool.positions[index].low_tick,
        position.high_tick == pool.positions[index].high_tick,
        position.liquidity == pool.positions[index].liquidity,
        grown(pool, position, amount_a, amount_b).is_ok(),
        enlarged.low_tick == position.low_tick,
        enlarged.high_tick == position.high_tick,
        enlarged.liquidity == decimal_of(
            grown(pool, position, amount_a, amount_b).unwrap().liquidity,
        ),
    ensures
        books_agree(
            PoolView {
                active_liquidity: grown(
                    pool,
                    position,
                    amount_a,
                    amount_b,
                ).unwrap().active_liquidity,
                ticks: grown(pool, position, amount_a, amount_b).unwrap().ticks,
                positions: pool.positions.update(index, enlarged),
                ..pool
            },
        ),
        enlarged.liquidity@ > 0,
{
    let growth = grown(pool, position, amount_a, amount_b).unwrap();
    let delta = growth.deposit.liquidity;
    let after = pool.positions.update(index, enlarged);
    let low = position.low_tick as int;
    let high = position.high_tick as int;
    assert(pool.positions[index].wf());
    lemma_deposit_is_held(
        pool.sqrt_price,
        sqrt_price_of_tick(low),
        sqrt_price_of_tick(high),
        amount_a,
        amount_b,
    );
    lemma_decimal_of_held(growth.liquidity);
    assert forall|t: int|
        gross_at(after, t) == #[trigger] gross_at(pool.positions, t) + (if t == low {
            delta
        } else {
            0
        }) + (if t == high {
            delta
        } else {
            0
        }) by {
        lemma_sums_after_update(pool.positions, index, enlarged, t);
    }
    assert forall|t: int|
        net_at(after, t) == #[trigger] net_at(pool.positions, t) + (if t == low {
            delta
        } else {
            0
        }) - (if t == high {
            delta
        } else {
            0
        }) by {
        lemma_sums_after_update(pool.positions, index, enlarged, t);
    }
    lemma_sums_after_update(pool.positions, index, enlarged, pool.current_tick);
    lemma_deposit_keeps_books(
        pool,
        after,
        low,
        high,
        delta,
        decimal_of(pool.fee_growth_global_a),
        decimal_of(pool.fee_growth_global_b),
    );
}

/// The books of a pool without positions agree.
pub proof fn lemma_empty_books(sqrt_price: int, current_tick: int, fee_rate: int)
    ensures
        books_agree(
            PoolView {
                sqrt_price,
                current_tick,
                active_liquidity: 0,
                fee_growth_global_a: 0,
                fee_growth_global_b: 0,
                fee_rate,
                ticks: Map::<int, TickInfo>::empty(),
                positions: Seq::<Position>::empty(),
                next_position_id: 1,
            },
        ),
{
    let positions = Seq::<Position>::empty();
    assert forall|t: int| #[trigger] gross_of(positions)(t) == 0 by {
        assert(gross_at(positions, t) == 0);
    }
}

/// A dereference right after a reference of the same liquidity at a tick
/// gives back the record of the tick, or its absence.
pub proof fn lemma_dereference_undoes_reference(
    before: Map<int, TickInfo>,
    ticks: Map<int, TickInfo>,
    tick: int,
    delta: int,
    is_lower: bool,
    current_tick: int,
    global_a: Decimal,
    global_b: Decimal,
)
    requires
        delta > 0,
        tick_in_bounds(tick),
        before.dom().contains(tick) ==> before[tick].liquidity_gross@ > 0,
        is_held(
            record_or_fresh(before, tick, current_tick, global_a, global_b).liquidity_gross@
                + delta,
        ),
        is_held(
            record_or_fresh(before, tick, current_tick, global_a, global_b).liquidity_net@
                + signed_delta(delta, is_lower),
        ),
        ticks.dom().contains(tick),
        ticks[tick] == referenced(
            before,
            tick,
            delta,
            is_lower,
            current_tick,
            global_a,
            global_b,
        )[tick],
    ensures
        dereference_outcome(ticks, tick, delta, is_lower).is_ok(),
        before.dom().contains(tick) ==> dereferenced(ticks, tick, delta, is_lower) == ticks.insert(
            tick,
            before[tick],
        ),
        !before.dom().contains(tick) ==> dereferenced(ticks, tick, delta, is_lower)
            == ticks.remove(tick),
{
    let base = record_or_fresh(before, tick, current_tick, global_a, global_b);
    lemma_decimal_of_held(base.liquidity_gross@ + delta);
    lemma_decimal_of_held(base.liquidity_net@ + signed_delta(delta, is_lower));
    lemma_decimal_of_held(0);
    lemma_decimal_of_view(base.liquidity_gross);
    lemma_decimal_of_view(base.liquidity_net);
    Decimal::lemma_view_bounds(base.liquidity_net);
}

/// Closing a position right after it was opened hands out no more of either
/// asset than the opening kept, and so no more than was offered, and leaves
/// the pool as it was before the opening, but for the next token.
pub proof fn lemma_closing_after_opening(
    pool: PoolView,
    low_tick: int,
    high_tick: int,
    amount_a: int,
    amount_b: int,
)
    requires
        positions_well_formed(pool.positions, pool.next_position_id),
        books_agree(pool),
        0 <= pool.next_position_id,
        is_held(pool.active_liquidity),
        opened(pool, low_tick, high_tick, amount_a, amount_b).is_ok(),
        closed(
            opened(pool, low_tick, high_tick, amount_a, amount_b).unwrap().pool,
            pool.next_position_id as u64,
        ).is_ok(),
    ensures
        ({
            let after = opened(pool, low_tick, high_tick, amount_a, amount_b).unwrap();
            let back = closed(after.pool, pool.next_position_id as u64).unwrap();
            &&& back.pool == PoolView { next_position_id: pool.next_position_id + 1, ..pool }
            &&& 0 <= after.refund_a && 0 <= after.refund_b
            &&& back.amount_a <= amount_a - after.refund_a <= amount_a
            &&& 0 <= back.amount_b <= amount_b - after.refund_b <= amount_b
        }),
{
    let id = pool.next_position_id as u64;
    let after = opened(pool, low_tick, high_tick, amount_a, amount_b).unwrap();
    let index = pool.positions.len() as int;
    let position = after.pool.positions[index];
    let price_low = sqrt_price_of_tick(low_tick);
    let price_high = sqrt_price_of_tick(high_tick);
    let deposit = deposit_for(pool.sqrt_price, price_low, price_high, amount_a, amount_b).unwrap();
    let delta = deposit.liquidity;
    let global_a = decimal_of(pool.fee_growth_global_a);
    let global_b = decimal_of(pool.fee_growth_global_b);
    // The position stands last, under the token that was next.
    assert(after.pool.positions =~= pool.positions.push(position));
    assert(positions_well_formed(after.pool.positions, after.pool.next_position_id)) by {
        lemma_deposit_is_held(pool.sqrt_price, price_low, price_high, amount_a, amount_b);
        lemma_decimal_of_held(delta);
        assert forall|i: int, j: int| 0 <= i < j < after.pool.positions.len() implies (
        #[trigger] after.pool.positions[i]).id < (#[trigger] after.pool.positions[j]).id by {
            if j < index {
                assert(pool.positions[i].id < pool.positions[j].id);
            } else {
                assert(pool.positions[i].id < pool.next_position_id);
            }
        }
        assert forall|i: int| 0 <= i < after.pool.positions.len() implies {
            &&& (#[trigger] after.pool.positions[i]).wf()
            &&& tick_in_bounds(after.pool.positions[i].low_tick as int)
            &&& tick_in_bounds(after.pool.positions[i].high_tick as int)
            &&& after.pool.positions[i].id < after.pool.next_position_id
        } by {
            if i < index {
                assert(pool.positions[i].wf());
            }
        }
    }
    lemma_index_of_held(after.pool.positions, after.pool.next_position_id, index);
    // It is owed nothing.
    let inside = inside_of(pool, after.pool.ticks, low_tick, high_tick);
    lemma_deposit_is_held(pool.sqrt_price, price_low, price_high, amount_a, amount_b);
    lemma_decimal_of_held(delta);
    lemma_decimal_of_held(0);
    lemma_decimal_of_held(inside.0.unwrap());
    lemma_decimal_of_held(inside.1.unwrap());
    lemma_second_collection_is_empty(delta, inside.0.unwrap());
    lemma_second_collection_is_empty(delta, inside.1.unwrap());
    assert(accrued(after.pool, position) == Some(position));
    // What it stands for is covered by what the deposit kept.
    lemma_sqrt_price_increasing(low_tick, high_tick);
    lemma_sqrt_price_in_bounds(low_tick);
    lemma_deposit_covers_its_liquidity(
        pool.sqrt_price,
        price_low,
        price_high,
        amount_a,
        amount_b,
    );
    // The ledger is as it was.
    let lower = referenced(
        pool.ticks,
        low_tick,
        delta,
        true,
        pool.current_tick,
        global_a,
        global_b,
    );
    let both = referenced(lower, high_tick, delta, false, pool.current_tick, global_a, global_b);
    assert(pool.ticks.dom().contains(low_tick) ==> gross_of(pool.positions)(low_tick) > 0);
    assert(pool.ticks.dom().contains(high_tick) ==> gross_of(pool.positions)(high_tick) > 0);
    lemma_dereference_undoes_reference(
        pool.ticks,
        both,
        low_tick,
        delta,
        true,
        pool.current_tick,
        global_a,
        global_b,
    );
    let half = dereferenced(both, low_tick, delta, true);
    lemma_dereference_undoes_reference(
        pool.ticks,
        half,
        high_tick,
        delta,
        false,
        pool.current_tick,
        global_a,
        global_b,
    );
    let restored = dereferenced(half, high_tick, delta, false);
    assert(restored =~= pool.ticks);
    assert(after.pool.positions.remove(index) =~= pool.positions);
}

/// Two positions of equal liquidity over the same range are handed equal
/// fees for what has grown since a reckoning that they share: positions that
/// agree in range, liquidity, remembered growth and fees owed collect the
/// same.
pub proof fn lemma_equal_positions_collect_equally(pool: PoolView, first: u64, second: u64)
    requires
        collected(pool, first).is_ok(),
        collected(pool, second).is_ok(),
        ({
            let p = pool.positions[position_index(pool.positions, first)];
            let q = pool.positions[position_index(pool.positions, second)];
            &&& p.low_tick == q.low_tick
            &&& p.high_tick == q.high_tick
            &&& p.liquidity == q.liquidity
            &&& p.fee_growth_inside_a_last == q.fee_growth_inside_a_last
            &&& p.fee_growth_inside_b_last == q.fee_growth_inside_b_last
            &&& p.owed_fee_a == q.owed_fee_a
            &&& p.owed_fee_b == q.owed_fee_b
        }),
    ensures
        collected(pool, first).unwrap().fee_a == collected(pool, second).unwrap().fee_a,
        collected(pool, first).unwrap().fee_b == collected(pool, second).unwrap().fee_b,
{
}

} // verus!
