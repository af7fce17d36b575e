//! The books of a pool: what the positions add up to at every tick, and why
//! the ledger and the active liquidity agree with it.

use crate::decimal::{lemma_decimal_of_held, Decimal};
use crate::pool::PoolView;
use crate::position::Position;
use crate::tick_ledger::{crossed, dereference_outcome, dereferenced, liquidity_activated, record_or_fresh, reference_outcome, referenced, signed_delta, TickInfo};
use vstd::prelude::*;

verus! {

/// What `position` adds to the active liquidity at `tick`: its liquidity
/// where its range holds the tick.
pub open spec fn active_part(position: Position, tick: int) -> int {
    if position.low_tick <= tick < position.high_tick {
        position.liquidity@
    } else {
        0
    }
}

/// What `position` adds to the net liquidity of `tick`: its liquidity at its
/// lower tick, and its liquidity taken off at its upper tick.
pub open spec fn net_part(position: Position, tick: int) -> int {
    (if position.low_tick == tick {
        position.liquidity@
    } else {
        0
    }) - (if position.high_tick == tick {
        position.liquidity@
    } else {
        0
    })
}

/// What `position` adds to the gross liquidity of `tick`: its liquidity at
/// either of its ticks.
pub open spec fn gross_part(position: Position, tick: int) -> int {
    (if position.low_tick == tick {
        position.liquidity@
    } else {
        0
    }) + (if position.high_tick == tick {
        position.liquidity@
    } else {
        0
    })
}

/// The liquidity of the positions whose range holds `tick`.
pub open spec fn liquidity_over(positions: Seq<Position>, tick: int) -> int
    decreases positions.len(),
{
    if positions.len() == 0 {
        0
    } else {
        liquidity_over(positions.drop_last(), tick) + active_part(positions.last(), tick)
    }
}

/// The liquidity of the positions that start at `tick` less that of the
/// positions that end at it.
pub open spec fn net_at(positions: Seq<Position>, tick: int) -> int
    decreases positions.len(),
{
    if positions.len() == 0 {
        0
    } else {
        net_at(positions.drop_last(), tick) + net_part(positions.last(), tick)
    }
}

/// The liquidity of the positions that start or end at `tick`.
pub open spec fn gross_at(positions: Seq<Position>, tick: int) -> int
    decreases positions.len(),
{
    if positions.len() == 0 {
        0
    } else {
        gross_at(positions.drop_last(), tick) + gross_part(positions.last(), tick)
    }
}

/// Whether every one of `positions` has a range and a positive liquidity.
pub open spec fn all_positive(positions: Seq<Position>) -> bool {
    forall|i: int| 0 <= i < positions.len() ==> (#[trigger] positions[i]).wf()
}

/// A further position adds its parts to the three sums.
pub proof fn lemma_sums_after_push(positions: Seq<Position>, position: Position, tick: int)
    ensures
        liquidity_over(positions.push(position), tick) == liquidity_over(positions, tick)
            + active_part(position, tick),
        net_at(positions.push(position), tick) == net_at(positions, tick) + net_part(
            position,
            tick,
        ),
        gross_at(positions.push(position), tick) == gross_at(positions, tick) + gross_part(
            position,
            tick,
        ),
{
    assert(positions.push(position).drop_last() =~= positions);
}

/// Replacing the position at index `i` replaces its parts in the three sums.
pub proof fn lemma_sums_after_update(
    positions: Seq<Position>,
    i: int,
    position: Position,
    tick: int,
)
    requires
        0 <= i < positions.len(),
    ensures
        liquidity_over(positions.update(i, position), tick) == liquidity_over(positions, tick)
            - active_part(positions[i], tick) + active_part(position, tick),
        net_at(positions.update(i, position), tick) == net_at(positions, tick) - net_part(
            positions[i],
            tick,
        ) + net_part(position, tick),
        gross_at(positions.update(i, position), tick) == gross_at(positions, tick) - gross_part(
            positions[i],
            tick,
        ) + gross_part(position, tick),
    decreases positions.len(),
{
    let after = positions.update(i, position);
    if i == positions.len() - 1 {
        assert(after.drop_last() =~= positions.drop_last());
    } else {
        lemma_sums_after_update(positions.drop_last(), i, position, tick);
        assert(after.drop_last() =~= positions.drop_last().update(i, position));
    }
}

/// Taking the position at index `i` out takes its parts out of the three
/// sums.
pub proof fn lemma_sums_after_remove(positions: Seq<Position>, i: int, tick: int)
    requires
        0 <= i < positions.len(),
    ensures
        liquidity_over(positions.remove(i), tick) == liquidity_over(positions, tick) - active_part(
            positions[i],
            tick,
        ),
        net_at(positions.remove(i), tick) == net_at(positions, tick) - net_part(
            positions[i],
            tick,
        ),
        gross_at(positions.remove(i), tick) == gross_at(positions, tick) - gross_part(
            positions[i],
            tick,
        ),
    decreases positions.len(),
{
    let after = positions.remove(i);
    if i == positions.len() - 1 {
        assert(after =~= positions.drop_last());
    } else {
        lemma_sums_after_remove(positions.drop_last(), i, tick);
        assert(after.drop_last() =~= positions.drop_last().remove(i));
        assert(after.last() == positions.last());
    }
}

/// With positive liquidities, the gross liquidity of a tick is not negative,
/// bounds the net liquidity from both sides, and is positive at the ticks of
/// every position.
pub proof fn lemma_gross_bounds(positions: Seq<Position>, tick: int)
    requires
        all_positive(positions),
    ensures
        gross_at(positions, tick) >= 0,
        -gross_at(positions, tick) <= net_at(positions, tick) <= gross_at(positions, tick),
        forall|i: int|
            0 <= i < positions.len() && ((#[trigger] positions[i]).low_tick == tick
                || positions[i].high_tick == tick) ==> gross_at(positions, tick) > 0,
    decreases positions.len(),
{
    if positions.len() > 0 {
        let rest = positions.drop_last();
        assert(positions.last().wf());
        assert forall|i: int| 0 <= i < rest.len() implies (#[trigger] rest[i]).wf() by {
            assert(positions[i].wf());
        }
        lemma_gross_bounds(rest, tick);
        assert forall|i: int|
            0 <= i < positions.len() && ((#[trigger] positions[i]).low_tick == tick
                || positions[i].high_tick == tick) implies gross_at(positions, tick) > 0 by {
            if i < positions.len() - 1 {
                assert(rest[i] == positions[i]);
            }
        }
    }
}

/// Moving the tick from `from` up to `to`, with `at` in between or at `to` the
/// only tick in `(from, to]` at which a position may start or end, changes
/// the liquidity over the tick by the net liquidity of `at`.
pub proof fn lemma_liquidity_across(positions: Seq<Position>, from: int, at: int, to: int)
    requires
        all_positive(positions),
        from < at <= to,
        forall|i: int|
            0 <= i < positions.len() ==> {
                &&& (#[trigger] positions[i]).low_tick <= from || positions[i].low_tick == at
                    || positions[i].low_tick > to
                &&& positions[i].high_tick <= from || positions[i].high_tick == at
                    || positions[i].high_tick > to
            },
    ensures
        liquidity_over(positions, to) == liquidity_over(positions, from) + net_at(positions, at),
    decreases positions.len(),
{
    if positions.len() > 0 {
        let rest = positions.drop_last();
        assert(positions.last().wf());
        assert forall|i: int| 0 <= i < rest.len() implies (#[trigger] rest[i]).wf() by {
            assert(positions[i].wf());
        }
        assert forall|i: int| 0 <= i < rest.len() implies {
            &&& (#[trigger] rest[i]).low_tick <= from || rest[i].low_tick == at
                || rest[i].low_tick > to
            &&& rest[i].high_tick <= from || rest[i].high_tick == at || rest[i].high_tick > to
        } by {
            assert(rest[i] == positions[i]);
        }
        lemma_liquidity_across(rest, from, at, to);
    }
}

/// Moving the tick from `from` up to `to`, with no tick in `(from, to]` at
/// which a position starts or ends, leaves the liquidity over the tick as it
/// is.
pub proof fn lemma_liquidity_along(positions: Seq<Position>, from: int, to: int)
    requires
        from <= to,
        forall|i: int|
            0 <= i < positions.len() ==> {
                &&& (#[trigger] positions[i]).low_tick <= from || positions[i].low_tick > to
                &&& positions[i].high_tick <= from || positions[i].high_tick > to
            },
    ensures
        liquidity_over(positions, to) == liquidity_over(positions, from),
    decreases positions.len(),
{
    if positions.len() > 0 {
        let rest = positions.drop_last();
        assert forall|i: int| 0 <= i < rest.len() implies {
            &&& (#[trigger] rest[i]).low_tick <= from || rest[i].low_tick > to
            &&& rest[i].high_tick <= from || rest[i].high_tick > to
        } by {
            assert(rest[i] == positions[i]);
        }
        lemma_liquidity_along(rest, from, to);
    }
}

/// Whether `ticks` holds just the ticks whose gross liquidity is positive,
/// with the gross and the net liquidity that `gross` and `net` tell.
pub open spec fn ledger_matches(
    ticks: Map<int, TickInfo>,
    gross: spec_fn(int) -> int,
    net: spec_fn(int) -> int,
) -> bool {
    forall|t: int|
        #![trigger ticks.dom().contains(t)]
        #![trigger gross(t)]
        {
            &&& ticks.dom().contains(t) <==> gross(t) > 0
            &&& ticks.dom().contains(t) ==> ticks[t].liquidity_gross@ == gross(t)
                && ticks[t].liquidity_net@ == net(t)
        }
}

/// `value` with `delta` added at `tick`.
pub open spec fn raised_at(value: spec_fn(int) -> int, tick: int, delta: int) -> spec_fn(int) -> int {
    |t: int|
        value(t) + if t == tick {
            delta
        } else {
            0
        }
}

/// A reference that is carried out keeps the ledger in step: it adds its
/// liquidity to the gross liquidity of its tick, and adds it to the net
/// liquidity or takes it off.
pub proof fn lemma_reference_matches(
    ticks: Map<int, TickInfo>,
    gross: spec_fn(int) -> int,
    net: spec_fn(int) -> int,
    tick: int,
    delta: int,
    is_lower: bool,
    current_tick: int,
    global_a: Decimal,
    global_b: Decimal,
)
    requires
        ledger_matches(ticks, gross, net),
        gross(tick) >= 0,
        gross(tick) == 0 ==> net(tick) == 0,
        reference_outcome(ticks, tick, delta, is_lower, current_tick, global_a, global_b).is_ok(),
    ensures
        ledger_matches(
            referenced(ticks, tick, delta, is_lower, current_tick, global_a, global_b),
            raised_at(gross, tick, delta),
            raised_at(net, tick, signed_delta(delta, is_lower)),
        ),
{
    let base = record_or_fresh(ticks, tick, current_tick, global_a, global_b);
    let after = referenced(ticks, tick, delta, is_lower, current_tick, global_a, global_b);
    lemma_decimal_of_held(base.liquidity_gross@ + delta);
    lemma_decimal_of_held(base.liquidity_net@ + signed_delta(delta, is_lower));
    assert(gross(tick) == base.liquidity_gross@);
    assert(net(tick) == base.liquidity_net@);
    let gross_after = raised_at(gross, tick, delta);
    let net_after = raised_at(net, tick, signed_delta(delta, is_lower));
    assert forall|t: int|
        #![trigger after.dom().contains(t)]
        #![trigger gross_after(t)]
        {
            &&& after.dom().contains(t) <==> gross_after(t) > 0
            &&& after.dom().contains(t) ==> after[t].liquidity_gross@ == gross_after(t)
                && after[t].liquidity_net@ == net_after(t)
        } by {
        assert(ticks.dom().contains(t) <==> gross(t) > 0);
    }
}

/// A dereference that is carried out keeps the ledger in step: it takes its
/// liquidity off the gross liquidity of its tick, and off the net liquidity
/// or back onto it.
pub proof fn lemma_dereference_matches(
    ticks: Map<int, TickInfo>,
    gross: spec_fn(int) -> int,
    net: spec_fn(int) -> int,
    tick: int,
    delta: int,
    is_lower: bool,
)
    requires
        ledger_matches(ticks, gross, net),
        dereference_outcome(ticks, tick, delta, is_lower).is_ok(),
    ensures
        ledger_matches(
            dereferenced(ticks, tick, delta, is_lower),
            raised_at(gross, tick, -delta),
            raised_at(net, tick, -signed_delta(delta, is_lower)),
        ),
{
    let base = ticks[tick];
    let after = dereferenced(ticks, tick, delta, is_lower);
    Decimal::lemma_view_bounds(base.liquidity_gross);
    lemma_decimal_of_held(base.liquidity_gross@ - delta);
    lemma_decimal_of_held(base.liquidity_net@ - signed_delta(delta, is_lower));
    assert(gross(tick) == base.liquidity_gross@);
    let gross_after = raised_at(gross, tick, -delta);
    let net_after = raised_at(net, tick, -signed_delta(delta, is_lower));
    assert forall|t: int|
        #![trigger after.dom().contains(t)]
        #![trigger gross_after(t)]
        {
            &&& after.dom().contains(t) <==> gross_after(t) > 0
            &&& after.dom().contains(t) ==> after[t].liquidity_gross@ == gross_after(t)
                && after[t].liquidity_net@ == net_after(t)
        } by {
        assert(ticks.dom().contains(t) <==> gross(t) > 0);
    }
}

/// A crossing leaves the liquidity that the ledger counts as it is.
pub proof fn lemma_crossing_matches(
    ticks: Map<int, TickInfo>,
    gross: spec_fn(int) -> int,
    net: spec_fn(int) -> int,
    tick: int,
    global_a: int,
    global_b: int,
)
    requires
        ledger_matches(ticks, gross, net),
    ensures
        ledger_matches(crossed(ticks, tick, global_a, global_b), gross, net),
{
    let after = crossed(ticks, tick, global_a, global_b);
    assert forall|t: int|
        #![trigger after.dom().contains(t)]
        #![trigger gross(t)]
        {
            &&& after.dom().contains(t) <==> gross(t) > 0
            &&& after.dom().contains(t) ==> after[t].liquidity_gross@ == gross(t)
                && after[t].liquidity_net@ == net(t)
        } by {
        assert(ticks.dom().contains(t) <==> gross(t) > 0);
    }
}

/// A ledger in step with one telling of the liquidity is in step with every
/// telling that agrees with it at every tick.
pub proof fn lemma_matches_the_same(
    ticks: Map<int, TickInfo>,
    gross: spec_fn(int) -> int,
    net: spec_fn(int) -> int,
    other_gross: spec_fn(int) -> int,
    other_net: spec_fn(int) -> int,
)
    requires
        ledger_matches(ticks, gross, net),
        forall|t: int| #[trigger] gross(t) == other_gross(t),
        forall|t: int| #[trigger] net(t) == other_net(t),
    ensures
        ledger_matches(ticks, other_gross, other_net),
{
    assert forall|t: int|
        #![trigger ticks.dom().contains(t)]
        #![trigger other_gross(t)]
        {
            &&& ticks.dom().contains(t) <==> other_gross(t) > 0
            &&& ticks.dom().contains(t) ==> ticks[t].liquidity_gross@ == other_gross(t)
                && ticks[t].liquidity_net@ == other_net(t)
        } by {
        assert(gross(t) == other_gross(t));
        assert(net(t) == other_net(t));
        assert(ticks.dom().contains(t) <==> gross(t) > 0);
    }
}

/// The gross liquidity that `positions` add up to, tick by tick.
pub open spec fn gross_of(positions: Seq<Position>) -> spec_fn(int) -> int {
    |t: int| gross_at(positions, t)
}

/// The net liquidity that `positions` add up to, tick by tick.
pub open spec fn net_of(positions: Seq<Position>) -> spec_fn(int) -> int {
    |t: int| net_at(positions, t)
}

/// Whether the books of a pool agree: the active liquidity is that of the
/// positions whose range holds the current tick, and the ledger holds just
/// the ticks at which a position starts or ends, with the liquidity that the
/// positions add up to there.
pub open spec fn books_agree(pool: PoolView) -> bool {
    &&& pool.active_liquidity == liquidity_over(pool.positions, pool.current_tick)
    &&& ledger_matches(pool.ticks, gross_of(pool.positions), net_of(pool.positions))
}

/// With the books in step, every tick at which a position starts or ends is
/// in the ledger.
pub proof fn lemma_ends_are_initialised(positions: Seq<Position>, ticks: Map<int, TickInfo>)
    requires
        all_positive(positions),
        ledger_matches(ticks, gross_of(positions), net_of(positions)),
    ensures
        forall|i: int|
            0 <= i < positions.len() ==> ticks.dom().contains(
                (#[trigger] positions[i]).low_tick as int,
            ) && ticks.dom().contains(positions[i].high_tick as int),
{
    assert forall|i: int| 0 <= i < positions.len() implies ticks.dom().contains(
        (#[trigger] positions[i]).low_tick as int,
    ) && ticks.dom().contains(positions[i].high_tick as int) by {
        let low = positions[i].low_tick as int;
        let high = positions[i].high_tick as int;
        lemma_gross_bounds(positions, low);
        lemma_gross_bounds(positions, high);
        assert(gross_of(positions)(low) > 0);
        assert(gross_of(positions)(high) > 0);
    }
}

/// With the books in step, the liquidity over the tick does not change while
/// the tick moves past no tick of the ledger.
pub proof fn lemma_liquidity_within_gap(
    positions: Seq<Position>,
    ticks: Map<int, TickInfo>,
    from: int,
    to: int,
)
    requires
        all_positive(positions),
        ledger_matches(ticks, gross_of(positions), net_of(positions)),
        from <= to,
        forall|u: int| ticks.dom().contains(u) ==> u <= from || u > to,
    ensures
        liquidity_over(positions, to) == liquidity_over(positions, from),
{
    lemma_ends_are_initialised(positions, ticks);
    lemma_liquidity_along(positions, from, to);
}

/// With the books in step, the liquidity over the tick changes by the net
/// liquidity of `at` while the tick moves up past `at` and no other tick of
/// the ledger; and that net liquidity is what the ledger holds for `at`, or
/// zero where it holds nothing.
pub proof fn lemma_liquidity_past_tick(
    positions: Seq<Position>,
    ticks: Map<int, TickInfo>,
    from: int,
    at: int,
    to: int,
)
    requires
        all_positive(positions),
        ledger_matches(ticks, gross_of(positions), net_of(positions)),
        from < at <= to,
        forall|u: int| ticks.dom().contains(u) ==> u <= from || u == at || u > to,
    ensures
        liquidity_over(positions, to) == liquidity_over(positions, from) + liquidity_activated(
            ticks,
            at,
            true,
        ),
{
    lemma_ends_are_initialised(positions, ticks);
    lemma_liquidity_across(positions, from, at, to);
    lemma_gross_bounds(positions, at);
    assert(ticks.dom().contains(at) <==> gross_of(positions)(at) > 0);
    assert(net_of(positions)(at) == net_at(positions, at));
}

/// A deposit of `delta` into a range keeps the books in step: whether it
/// opens a position, by `positions.push`, or enlarges one, by
/// `positions.update`, the sums of `after` are those of `positions` with
/// `delta` more over the range.
pub proof fn lemma_deposit_keeps_books(
    pool: PoolView,
    after: Seq<Position>,
    low_tick: int,
    high_tick: int,
    delta: int,
    global_a: Decimal,
    global_b: Decimal,
)
    requires
        books_agree(pool),
        all_positive(pool.positions),
        low_tick < high_tick,
        forall|t: int|
            gross_at(after, t) == #[trigger] gross_at(pool.positions, t) + (if t == low_tick {
                delta
            } else {
                0
            }) + (if t == high_tick {
                delta
            } else {
                0
            }),
        forall|t: int|
            net_at(after, t) == #[trigger] net_at(pool.positions, t) + (if t == low_tick {
                delta
            } else {
                0
            }) - (if t == high_tick {
                delta
            } else {
                0
            }),
        liquidity_over(after, pool.current_tick) == liquidity_over(
            pool.positions,
            pool.current_tick,
        ) + (if low_tick <= pool.current_tick < high_tick {
            delta
        } else {
            0
        }),
        reference_outcome(
            pool.ticks,
            low_tick,
            delta,
            true,
            pool.current_tick,
            global_a,
            global_b,
        ).is_ok(),
        reference_outcome(
            referenced(pool.ticks, low_tick, delta, true, pool.current_tick, global_a, global_b),
            high_tick,
            delta,
            false,
            pool.current_tick,
            global_a,
            global_b,
        ).is_ok(),
    ensures
        ledger_matches(
            referenced(
                referenced(
                    pool.ticks,
                    low_tick,
                    delta,
                    true,
                    pool.current_tick,
                    global_a,
                    global_b,
                ),
                high_tick,
                delta,
                false,
                pool.current_tick,
                global_a,
                global_b,
            ),
            gross_of(after),
            net_of(after),
        ),
{
    let gross = gross_of(pool.positions);
    let net = net_of(pool.positions);
    let lower = referenced(
        pool.ticks,
        low_tick,
        delta,
        true,
        pool.current_tick,
        global_a,
        global_b,
    );
    let both = referenced(lower, high_tick, delta, false, pool.current_tick, global_a, global_b);
    lemma_gross_bounds(pool.positions, low_tick);
    lemma_gross_bounds(pool.positions, high_tick);
    lemma_reference_matches(
        pool.ticks,
        gross,
        net,
        low_tick,
        delta,
        true,
        pool.current_tick,
        global_a,
        global_b,
    );
    let gross_lower = raised_at(gross, low_tick, delta);
    let net_lower = raised_at(net, low_tick, delta);
    lemma_reference_matches(
        lower,
        gross_lower,
        net_lower,
        high_tick,
        delta,
        false,
        pool.current_tick,
        global_a,
        global_b,
    );
    let gross_both = raised_at(gross_lower, high_tick, delta);
    let net_both = raised_at(net_lower, high_tick, -delta);
    assert forall|t: int| #[trigger] gross_both(t) == gross_of(after)(t) by {
        assert(gross_at(after, t) == gross_at(pool.positions, t) + (if t == low_tick {
            delta
        } else {
            0
        }) + (if t == high_tick {
            delta
        } else {
            0
        }));
    }
    assert forall|t: int| #[trigger] net_both(t) == net_of(after)(t) by {
        assert(net_at(after, t) == net_at(pool.positions, t) + (if t == low_tick {
            delta
        } else {
            0
        }) - (if t == high_tick {
            delta
        } else {
            0
        }));
    }
    lemma_matches_the_same(both, gross_both, net_both, gross_of(after), net_of(after));
}

/// A withdrawal of `delta` from a range keeps the books in step, where the
/// sums of `after` are those of `positions` with `delta` less over the range.
pub proof fn lemma_withdrawal_keeps_books(
    pool: PoolView,
    after: Seq<Position>,
    low_tick: int,
    high_tick: int,
    delta: int,
)
    requires
        books_agree(pool),
        low_tick < high_tick,
        forall|t: int|
            gross_at(after, t) == #[trigger] gross_at(pool.positions, t) - (if t == low_tick {
                delta
            } else {
                0
            }) - (if t == high_tick {
                delta
            } else {
                0
            }),
        forall|t: int|
            net_at(after, t) == #[trigger] net_at(pool.positions, t) - (if t == low_tick {
                delta
            } else {
                0
            }) + (if t == high_tick {
                delta
            } else {
                0
            }),
        dereference_outcome(pool.ticks, low_tick, delta, true).is_ok(),
        dereference_outcome(
            dereferenced(pool.ticks, low_tick, delta, true),
            high_tick,
            delta,
            false,
        ).is_ok(),
    ensures
        ledger_matches(
            dereferenced(
                dereferenced(pool.ticks, low_tick, delta, true),
                high_tick,
                delta,
                false,
            ),
            gross_of(after),
            net_of(after),
        ),
{
    let gross = gross_of(pool.positions);
    let net = net_of(pool.positions);
    let lower = dereferenced(pool.ticks, low_tick, delta, true);
    let both = dereferenced(lower, high_tick, delta, false);
    lemma_dereference_matches(pool.ticks, gross, net, low_tick, delta, true);
    let gross_lower = raised_at(gross, low_tick, -delta);
    let net_lower = raised_at(net, low_tick, -delta);
    lemma_dereference_matches(lower, gross_lower, net_lower, high_tick, delta, false);
    let gross_both = raised_at(gross_lower, high_tick, -delta);
    let net_both = raised_at(net_lower, high_tick, delta);
    assert forall|t: int| #[trigger] gross_both(t) == gross_of(after)(t) by {
        assert(gross_at(after, t) == gross_at(pool.positions, t) - (if t == low_tick {
            delta
        } else {
            0
        }) - (if t == high_tick {
            delta
        } else {
            0
        }));
    }
    assert forall|t: int| #[trigger] net_both(t) == net_of(after)(t) by {
        assert(net_at(after, t) == net_at(pool.positions, t) - (if t == low_tick {
            delta
        } else {
            0
        }) + (if t == high_tick {
            delta
        } else {
            0
        }));
    }
    lemma_matches_the_same(both, gross_both, net_both, gross_of(after), net_of(after));
}

} // verus!
