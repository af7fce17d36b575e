use mojitoswap_pool::decimal::Decimal;
use mojitoswap_pool::tick_math::{
    max_price, min_price, sqrt_price_at_tick, tick_at_sqrt_price, TickMathError, MAX_TICK,
    MIN_TICK,
};
use scrypto::math::I192;
use std::str::FromStr;

/// Parses a decimal numeral the way `scrypto` does and carries its limbs over.
fn dec(text: &str) -> Decimal {
    let parsed = scrypto::math::Decimal::from_str(text).unwrap();
    Decimal::from_digits(parsed.attos().to_digits())
}

fn one() -> Decimal {
    Decimal::one()
}

#[test]
fn test_sqrt_price_at_tick() {
    assert_eq!(min_price(), sqrt_price_at_tick(MIN_TICK).unwrap());
    assert_eq!(dec("0.000000000276890319"), sqrt_price_at_tick(-440170).unwrap());
    assert_eq!(dec("0.999850018747812746"), sqrt_price_at_tick(-3).unwrap());
    assert_eq!(dec("0.999950003749687527"), sqrt_price_at_tick(-1).unwrap());
    assert_eq!(one(), sqrt_price_at_tick(0).unwrap());
    assert_eq!(dec("1.000150003749937502"), sqrt_price_at_tick(3).unwrap());
    assert_eq!(dec("1.000250018750312495"), sqrt_price_at_tick(5).unwrap());
    assert_eq!(dec("1.451912069310684182"), sqrt_price_at_tick(7458).unwrap());
    assert_eq!(dec("13.043260825728760908"), sqrt_price_at_tick(51368).unwrap());
    assert_eq!(
        dec("3611718901.096063128233128884"),
        sqrt_price_at_tick(440171).unwrap()
    );
    assert_eq!(max_price(), sqrt_price_at_tick(MAX_TICK).unwrap());
}

#[test]
fn test_tick_at_sqrt_price() {
    assert_eq!(0, tick_at_sqrt_price(one()).unwrap());
    assert_eq!(0, tick_at_sqrt_price(dec("1.0000499987500624")).unwrap());
    assert_eq!(2, tick_at_sqrt_price(dec("1.0001")).unwrap());
    assert_eq!(2, tick_at_sqrt_price(dec("1.000150003749937406")).unwrap());
    assert_eq!(-3, tick_at_sqrt_price(dec("0.999850018747812842")).unwrap());
    assert_eq!(-440170, tick_at_sqrt_price(dec("0.000000000276890319")).unwrap());
    assert_eq!(-440170, tick_at_sqrt_price(dec("0.00000000027689032")).unwrap());
    assert_eq!(
        440170,
        tick_at_sqrt_price(dec("3611718901.08879675118568791")).unwrap()
    );
    assert_eq!(
        440170,
        tick_at_sqrt_price(dec("3611718901.08879675118568792")).unwrap()
    );
    assert_eq!(MAX_TICK, tick_at_sqrt_price(max_price()).unwrap());
    assert_eq!(MIN_TICK, tick_at_sqrt_price(min_price()).unwrap());
}

#[test]
fn test_x() {
    let a = I192::from_str("170134484377190040957155711420855095752").unwrap();

    println!("{:?}", a.to_digits());

    let x = Decimal::from_digits(a.to_digits());
    let y = dec("170134484377190040957.155711420855095752");
    let z = Decimal::from_digits([4809668506064654792, 9223008878822527810, 0]);
    assert_eq!(x, y);
    assert_eq!(y, z);
}

/// Every 61st tick of the range, and both ends, come back from their price.
#[test]
fn tick_at_sqrt_price_equals_original_tick() {
    let mut tick = MAX_TICK;
    while tick >= MIN_TICK {
        assert_eq!(
            tick,
            tick_at_sqrt_price(sqrt_price_at_tick(tick).unwrap()).unwrap()
        );
        tick -= 61;
    }
    assert_eq!(
        MIN_TICK,
        tick_at_sqrt_price(sqrt_price_at_tick(MIN_TICK).unwrap()).unwrap()
    );
}

#[test]
fn ticks_outside_the_range_are_refused() {
    assert_eq!(Err(TickMathError::OutOfBounds), sqrt_price_at_tick(MIN_TICK - 1));
    assert_eq!(Err(TickMathError::OutOfBounds), sqrt_price_at_tick(MAX_TICK + 1));
    assert_eq!(Err(TickMathError::OutOfBounds), sqrt_price_at_tick(i32::MIN));
    assert_eq!(Err(TickMathError::OutOfBounds), sqrt_price_at_tick(i32::MAX));
}

#[test]
fn prices_outside_the_range_are_refused() {
    assert_eq!(
        Err(TickMathError::OutOfBounds),
        tick_at_sqrt_price(dec("0.000000000000019849"))
    );
    assert_eq!(
        Err(TickMathError::OutOfBounds),
        tick_at_sqrt_price(dec("170134484377190040957.155711420855095753"))
    );
    assert_eq!(Err(TickMathError::OutOfBounds), tick_at_sqrt_price(Decimal::zero()));
    assert_eq!(Err(TickMathError::OutOfBounds), tick_at_sqrt_price(dec("-1")));
}
