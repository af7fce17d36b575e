use mojitoswap_pool::decimal::Decimal;
use mojitoswap_pool::error::PoolError;
use mojitoswap_pool::position::{fee_growth_inside, Position};
use mojitoswap_pool::tick_ledger::TickLedger;
use mojitoswap_pool::tick_math::{MAX_TICK, MIN_TICK};
use std::str::FromStr;

fn dec(text: &str) -> Decimal {
    let parsed = scrypto::math::Decimal::from_str(text).unwrap();
    Decimal::from_digits(parsed.attos().to_digits())
}

fn ledger_of(ticks: &[i32]) -> TickLedger {
    let mut ledger = TickLedger::new();
    for &tick in ticks {
        ledger
            .reference(tick, dec("5"), true, 0, dec("3"), dec("4"))
            .unwrap();
    }
    ledger
}

#[test]
fn references_keep_the_ticks_in_order() {
    let ledger = ledger_of(&[30, -10, 20, -40, 0]);
    let ticks: Vec<i32> = ledger.entries.iter().map(|entry| entry.tick).collect();
    assert_eq!(ticks, vec![-40, -10, 0, 20, 30]);
    assert!(ledger.get(15).is_none());
    assert_eq!(ledger.duplicate().entries, ledger.entries);
}

#[test]
fn fresh_tick_starts_from_the_global_growth_at_or_below_the_current_tick() {
    let ledger = ledger_of(&[-10, 0, 20]);
    for tick in [-10, 0] {
        let info = ledger.get(tick).unwrap();
        assert_eq!(info.fee_growth_outside_a, dec("3"));
        assert_eq!(info.fee_growth_outside_b, dec("4"));
    }
    let info = ledger.get(20).unwrap();
    assert_eq!(info.fee_growth_outside_a, Decimal::zero());
    assert_eq!(info.fee_growth_outside_b, Decimal::zero());
}

#[test]
fn references_add_up() {
    let mut ledger = TickLedger::new();
    ledger.reference(7, dec("5"), true, 0, dec("3"), dec("4")).unwrap();
    ledger.reference(7, dec("2"), false, 9, dec("8"), dec("8")).unwrap();
    let info = ledger.get(7).unwrap();
    assert_eq!(info.liquidity_gross, dec("7"));
    assert_eq!(info.liquidity_net, dec("3"));
    assert_eq!(info.fee_growth_outside_a, Decimal::zero());
    ledger.dereference(7, dec("5"), true).unwrap();
    let info = ledger.get(7).unwrap();
    assert_eq!(info.liquidity_gross, dec("2"));
    assert_eq!(info.liquidity_net, dec("-2"));
    ledger.dereference(7, dec("2"), false).unwrap();
    assert!(ledger.get(7).is_none());
    assert!(ledger.entries.is_empty());
}

#[test]
fn ledger_refusals_change_nothing() {
    let mut ledger = ledger_of(&[7]);
    let before = ledger.entries.clone();
    let zero = Decimal::zero();
    assert_eq!(
        ledger.reference(MAX_TICK + 1, dec("1"), true, 0, zero, zero),
        Err(PoolError::OutOfBounds)
    );
    assert_eq!(
        ledger.reference(7, zero, true, 0, zero, zero),
        Err(PoolError::ZeroLiquidity)
    );
    assert_eq!(
        ledger.reference(7, dec("-1"), true, 0, zero, zero),
        Err(PoolError::ZeroLiquidity)
    );
    let largest = Decimal::from_digits([u64::MAX, u64::MAX, u64::MAX >> 1]);
    assert_eq!(
        ledger.reference(7, largest, true, 0, zero, zero),
        Err(PoolError::Overflow)
    );
    assert_eq!(ledger.dereference(MIN_TICK - 1, dec("1"), true), Err(PoolError::OutOfBounds));
    assert_eq!(ledger.dereference(7, zero, true), Err(PoolError::ZeroLiquidity));
    assert_eq!(ledger.dereference(8, dec("1"), true), Err(PoolError::Overflow));
    assert_eq!(ledger.dereference(7, dec("6"), true), Err(PoolError::Overflow));
    assert_eq!(ledger.entries, before);
}

#[test]
fn nearest_initialised_tick_on_either_side() {
    let ledger = ledger_of(&[-40, -10, 0, 20, 30]);
    assert_eq!(ledger.next_initialized_tick(0, true), 20);
    assert_eq!(ledger.next_initialized_tick(0, false), -10);
    assert_eq!(ledger.next_initialized_tick(19, true), 20);
    assert_eq!(ledger.next_initialized_tick(20, true), 30);
    assert_eq!(ledger.next_initialized_tick(21, false), 20);
    assert_eq!(ledger.next_initialized_tick(20, false), 0);
    assert_eq!(ledger.next_initialized_tick(30, true), MAX_TICK);
    assert_eq!(ledger.next_initialized_tick(-40, false), MIN_TICK);
    assert_eq!(ledger.next_initialized_tick(i32::MAX, true), MAX_TICK);
    assert_eq!(ledger.next_initialized_tick(i32::MIN, false), MIN_TICK);
    assert_eq!(ledger.next_initialized_tick(i32::MAX, false), 30);
    assert_eq!(ledger.next_initialized_tick(i32::MIN, true), -40);
    let empty = TickLedger::new();
    assert_eq!(empty.next_initialized_tick(5, true), MAX_TICK);
    assert_eq!(empty.next_initialized_tick(5, false), MIN_TICK);
}

#[test]
fn crossing_flips_the_growth_outside() {
    let mut ledger = TickLedger::new();
    ledger.reference(7, dec("5"), true, 9, dec("3"), dec("4")).unwrap();
    assert_eq!(ledger.cross(7, dec("10"), dec("20"), true), Ok(dec("5")));
    let info = ledger.get(7).unwrap();
    assert_eq!(info.fee_growth_outside_a, dec("7"));
    assert_eq!(info.fee_growth_outside_b, dec("16"));
    assert_eq!(ledger.cross(7, dec("10"), dec("20"), false), Ok(dec("-5")));
    let info = ledger.get(7).unwrap();
    assert_eq!(info.fee_growth_outside_a, dec("3"));
    assert_eq!(info.fee_growth_outside_b, dec("4"));
    assert_eq!(info.liquidity_net, dec("5"));
    assert_eq!(ledger.cross(8, dec("10"), dec("20"), true), Ok(Decimal::zero()));
    assert_eq!(ledger.entries.len(), 1);
}

#[test]
fn growth_inside_a_range() {
    let inside = |current| fee_growth_inside(dec("10"), dec("3"), dec("2"), -5, 5, current);
    assert_eq!(inside(0), Ok(dec("5")));
    assert_eq!(inside(-5), Ok(dec("5")));
    assert_eq!(inside(4), Ok(dec("5")));
    assert_eq!(inside(-6), Ok(dec("1")));
    assert_eq!(inside(5), Ok(dec("-1")));
}

fn position() -> Position {
    Position {
        id: 1,
        low_tick: -5,
        high_tick: 5,
        liquidity: dec("200"),
        fee_growth_inside_a_last: dec("0.5"),
        fee_growth_inside_b_last: dec("0.25"),
        owed_fee_a: dec("1"),
        owed_fee_b: Decimal::zero(),
    }
}

#[test]
fn fees_are_owed_on_the_growth_since_the_last_reckoning() {
    let mut held = position();
    held.accrue(dec("0.75"), dec("0.25")).unwrap();
    assert_eq!(held.owed_fee_a, dec("51"));
    assert_eq!(held.owed_fee_b, Decimal::zero());
    assert_eq!(held.fee_growth_inside_a_last, dec("0.75"));
    held.accrue(dec("0.75"), dec("0.26")).unwrap();
    assert_eq!(held.owed_fee_a, dec("51"));
    assert_eq!(held.owed_fee_b, dec("2"));
}

#[test]
fn collecting_twice_hands_out_nothing_the_second_time() {
    let mut held = position();
    assert_eq!(held.collect(dec("0.75"), dec("0.5")), Ok((dec("51"), dec("50"))));
    assert_eq!(
        held.collect(dec("0.75"), dec("0.5")),
        Ok((Decimal::zero(), Decimal::zero()))
    );
    assert_eq!(held.liquidity, dec("200"));
}

#[test]
fn equal_liquidity_earns_equal_fees() {
    let mut first = position();
    let mut second = position();
    second.id = 2;
    second.owed_fee_a = dec("7");
    first.accrue(dec("0.8"), dec("0.3")).unwrap();
    second.accrue(dec("0.8"), dec("0.3")).unwrap();
    assert_eq!(first.owed_fee_a, dec("61"));
    assert_eq!(second.owed_fee_a, dec("67"));
    assert_eq!(first.owed_fee_b, second.owed_fee_b);
}

#[test]
fn reckoning_that_cannot_be_held_changes_nothing() {
    let mut held = position();
    let largest = Decimal::from_digits([u64::MAX, u64::MAX, u64::MAX >> 1]);
    assert_eq!(held.accrue(largest, dec("0.25")), Err(PoolError::Overflow));
    assert_eq!(held, position());
}
