use mojitoswap_pool::checked::{minus, over, plus, times};
use mojitoswap_pool::decimal::Decimal;
use mojitoswap_pool::error::PoolError;
use mojitoswap_pool::liquidity::{amounts_for_liquidity, deposit_amounts};
use mojitoswap_pool::swap_math::compute_swap_step;
use mojitoswap_pool::tick_math::{sqrt_price_at_tick, tick_at_sqrt_price};
use std::str::FromStr;

fn dec(text: &str) -> Decimal {
    let parsed = scrypto::math::Decimal::from_str(text).unwrap();
    Decimal::from_digits(parsed.attos().to_digits())
}

fn largest() -> Decimal {
    Decimal::from_digits([u64::MAX, u64::MAX, u64::MAX >> 1])
}

fn smallest() -> Decimal {
    Decimal::from_digits([0, 0, 1 << 63])
}

#[test]
fn limbs_come_back() {
    let digits = [4809668506064654792, 9223008878822527810, 17];
    assert_eq!(Decimal::from_digits(digits).to_digits(), digits);
    assert_eq!(Decimal::one().to_digits(), [1_000_000_000_000_000_000, 0, 0]);
    assert_eq!(Decimal::zero().to_digits(), [0, 0, 0]);
    assert_eq!(dec("-0.000000000000000001").to_digits(), [u64::MAX, u64::MAX, u64::MAX]);
}

#[test]
fn numbers_compare_by_value() {
    let ordered = [
        smallest(),
        dec("-170134484377190040957.155711420855095752"),
        dec("-1"),
        dec("-0.000000000000000001"),
        Decimal::zero(),
        dec("0.000000000000000001"),
        Decimal::one(),
        dec("18.446744073709551616"),
        dec("340282366920938463463.374607431768211456"),
        largest(),
    ];
    for i in 0..ordered.len() {
        for j in 0..ordered.len() {
            assert_eq!(ordered[i].lt(&ordered[j]), i < j);
            assert_eq!(ordered[i].le(&ordered[j]), i <= j);
            assert_eq!(ordered[i].gt(&ordered[j]), i > j);
            assert_eq!(ordered[i].ge(&ordered[j]), i >= j);
            assert_eq!(ordered[i].eq(&ordered[j]), i == j);
        }
        assert_eq!(ordered[i].is_negative(), i < 4);
    }
}

#[test]
fn sums_and_differences() {
    assert_eq!(plus(dec("1.5"), dec("-2.25")), Ok(dec("-0.75")));
    assert_eq!(minus(dec("1.5"), dec("-2.25")), Ok(dec("3.75")));
    assert_eq!(plus(largest(), dec("0.000000000000000001")), Err(PoolError::Overflow));
    assert_eq!(minus(smallest(), dec("0.000000000000000001")), Err(PoolError::Overflow));
    assert_eq!(plus(largest(), smallest()), Ok(dec("-0.000000000000000001")));
}

#[test]
fn products_round_towards_zero() {
    assert_eq!(times(dec("1.5"), dec("-2.25")), Ok(dec("-3.375")));
    assert_eq!(
        times(dec("0.000000001"), dec("0.0000000019")),
        Ok(dec("0.000000000000000001"))
    );
    assert_eq!(times(dec("-0.000000001"), dec("0.0000000019")), Ok(dec("-0.000000000000000001")));
    assert_eq!(times(largest(), dec("1.000000000000000001")), Err(PoolError::Overflow));
    assert_eq!(times(smallest(), Decimal::one()), Err(PoolError::Overflow));
    assert_eq!(times(largest(), Decimal::one()), Ok(largest()));
}

#[test]
fn quotients_round_towards_zero() {
    assert_eq!(over(dec("7"), dec("3")), Ok(dec("2.333333333333333333")));
    assert_eq!(over(dec("-7"), dec("3")), Ok(dec("-2.333333333333333333")));
    assert_eq!(over(dec("7"), dec("-3")), Ok(dec("-2.333333333333333333")));
    assert_eq!(over(dec("7"), Decimal::zero()), Err(PoolError::Overflow));
    assert_eq!(over(largest(), dec("0.5")), Err(PoolError::Overflow));
}

#[test]
fn neighbouring_ticks_have_rising_prices() {
    for tick in [-631042, -631041, -630892, -630891, -524288, -2, -1, 0, 1, 2, 524287, 931708] {
        let low = sqrt_price_at_tick(tick).unwrap();
        let high = sqrt_price_at_tick(tick + 1).unwrap();
        assert!(low.lt(&high), "at tick {}", tick);
    }
}

#[test]
fn the_lowest_ticks_lie_one_unit_apart() {
    for step in 0..152 {
        assert_eq!(
            sqrt_price_at_tick(-631042 + step).unwrap().to_digits(),
            [19850 + step as u64, 0, 0]
        );
    }
}

#[test]
fn tick_of_a_price_is_the_greatest_that_does_not_exceed_it() {
    assert_eq!(tick_at_sqrt_price(dec("1.0000499987500624")), Ok(0));
    assert_eq!(tick_at_sqrt_price(dec("1.000049998750062495")), Ok(0));
    assert_eq!(tick_at_sqrt_price(dec("1.000049998750062496")), Ok(1));
    assert_eq!(tick_at_sqrt_price(dec("0.999950003749687526")), Ok(-2));
    assert_eq!(tick_at_sqrt_price(dec("0.999950003749687527")), Ok(-1));
    assert_eq!(tick_at_sqrt_price(dec("0.999999999999999999")), Ok(-1));
    assert_eq!(tick_at_sqrt_price(Decimal::one()), Ok(0));
    let unit = scrypto::math::Decimal::from_str("0.000000000000000001").unwrap();
    let mut tick = -631042;
    while tick < 931709 {
        let price = sqrt_price_at_tick(tick).unwrap();
        let next = sqrt_price_at_tick(tick + 1).unwrap();
        let next = scrypto::math::Decimal::from_attos(scrypto::math::I192::from_digits(
            next.to_digits(),
        ));
        let just_below = Decimal::from_digits((next - unit).attos().to_digits());
        assert_eq!(tick_at_sqrt_price(price), Ok(tick));
        assert_eq!(tick_at_sqrt_price(just_below), Ok(tick));
        tick += 4099;
    }
}

#[test]
fn tick_does_not_fall_as_the_price_rises() {
    let prices = [
        "0.00000000000001985",
        "0.000000000276890319",
        "0.5",
        "0.999999999999999999",
        "1",
        "1.0000499987500624",
        "1.0001",
        "3611718901.08879675118568791",
        "170134484377190040957.155711420855095752",
    ];
    let mut last = i32::MIN;
    for price in prices {
        let tick = tick_at_sqrt_price(dec(price)).unwrap();
        assert!(tick >= last);
        last = tick;
    }
}

#[test]
fn deposit_within_the_range_keeps_the_scarcer_asset_whole() {
    let low = sqrt_price_at_tick(-1000).unwrap();
    let high = sqrt_price_at_tick(1000).unwrap();
    let deposit = deposit_amounts(Decimal::one(), low, high, dec("10000"), dec("10000")).unwrap();
    assert_eq!(deposit.liquidity, dec("205051.662681070198680358"));
    assert_eq!(deposit.used_a, dec("9999.999999999999969789"));
    assert_eq!(deposit.used_b, dec("10000"));
    let deposit = deposit_amounts(Decimal::one(), low, high, dec("5000"), dec("10000")).unwrap();
    assert_eq!(deposit.liquidity, dec("102525.831340535099649902"));
    assert_eq!(deposit.used_a, dec("5000"));
    assert_eq!(deposit.used_b, dec("5000.000000000000015104"));
}

#[test]
fn deposit_buys_no_liquidity_that_stands_for_more_than_was_offered() {
    let price = dec("1.000000000000000001");
    let deposit = deposit_amounts(price, dec("0.5"), dec("1.5"), dec("9"), dec("18")).unwrap();
    assert_eq!(deposit.liquidity, dec("27.000000000000000072"));
    assert_eq!(deposit.used_a, dec("9"));
    assert_eq!(deposit.used_b, dec("13.500000000000000063"));
    let stands_for =
        amounts_for_liquidity(price, dec("0.5"), dec("1.5"), deposit.liquidity).unwrap();
    assert_eq!(stands_for.0, dec("8.999999999999999999"));
    assert_eq!(stands_for.1, dec("13.500000000000000063"));
}

#[test]
fn deposit_outside_the_range_keeps_one_asset() {
    let low = sqrt_price_at_tick(199).unwrap();
    let high = sqrt_price_at_tick(200).unwrap();
    let below = deposit_amounts(Decimal::one(), low, high, dec("1000"), dec("5")).unwrap();
    assert_eq!(below.liquidity, dec("20201498.254065934467158624"));
    assert_eq!(below.used_a, dec("1000"));
    assert_eq!(below.used_b, Decimal::zero());
    let above = deposit_amounts(dec("2"), low, high, dec("5"), dec("1000")).unwrap();
    assert_eq!(above.used_a, Decimal::zero());
    assert_eq!(above.used_b, dec("1000"));
    let stands_for = amounts_for_liquidity(dec("2"), low, high, above.liquidity).unwrap();
    assert_eq!(stands_for.0, Decimal::zero());
    assert!(stands_for.1.le(&dec("1000")));
}

#[test]
fn deposits_are_refused() {
    let low = sqrt_price_at_tick(-1000).unwrap();
    let high = sqrt_price_at_tick(1000).unwrap();
    let one = Decimal::one();
    assert_eq!(
        deposit_amounts(one, low, high, dec("-1"), dec("1")),
        Err(PoolError::OutOfBounds)
    );
    assert_eq!(
        deposit_amounts(one, low, high, Decimal::zero(), dec("1")),
        Err(PoolError::ZeroLiquidity)
    );
    assert_eq!(
        deposit_amounts(one, low, high, largest(), largest()),
        Err(PoolError::Overflow)
    );
}

#[test]
fn step_that_stops_short_takes_all_the_input() {
    let target = sqrt_price_at_tick(-1000).unwrap();
    let liquidity = dec("205051.662681070198680358");
    let step =
        compute_swap_step(Decimal::one(), target, liquidity, dec("5000"), dec("0.01"), true)
            .unwrap();
    assert_eq!(step.sqrt_price, dec("0.976428758054560875"));
    assert_eq!(step.amount_in, dec("4950"));
    assert_eq!(step.fee, dec("50"));
    assert_eq!(step.amount_out, dec("4833.322352370076335998"));
}

#[test]
fn step_that_meets_its_target_takes_the_capacity() {
    let target = sqrt_price_at_tick(-1000).unwrap();
    let liquidity = dec("205051.662681070198680358");
    let step =
        compute_swap_step(Decimal::one(), target, liquidity, dec("11000"), Decimal::zero(), true)
            .unwrap();
    assert_eq!(step.sqrt_price, target);
    assert_eq!(step.amount_in, dec("10512.684683767656081627"));
    assert_eq!(step.fee, Decimal::zero());
    assert_eq!(step.amount_out, dec("9999.999999999999999999"));
    let up = sqrt_price_at_tick(1000).unwrap();
    let step =
        compute_swap_step(Decimal::one(), up, liquidity, dec("11000"), dec("0.01"), false).unwrap();
    assert_eq!(step.sqrt_price, up);
    assert!(step.amount_in.lt(&dec("10890")));
    assert!(step.fee.lt(&dec("110")) && step.fee.gt(&dec("106")));
}
