use mojitoswap_pool::decimal::Decimal;
use mojitoswap_pool::error::PoolError;
use mojitoswap_pool::pool::Pool;
use mojitoswap_pool::tick_math;
use std::str::FromStr;

/// Parses a decimal numeral the way `scrypto` does and carries its limbs over.
fn dec(text: &str) -> Decimal {
    let parsed = scrypto::math::Decimal::from_str(text).unwrap();
    Decimal::from_digits(parsed.attos().to_digits())
}

fn outside(value: Decimal) -> scrypto::math::Decimal {
    scrypto::math::Decimal::from_attos(scrypto::math::I192::from_digits(value.to_digits()))
}

fn inside(value: scrypto::math::Decimal) -> Decimal {
    Decimal::from_digits(value.attos().to_digits())
}

fn text(value: Decimal) -> String {
    outside(value).to_string()
}

/// An account used for testing purposes: what it holds of the two assets and
/// the tokens of its positions.
struct Account {
    moj: scrypto::math::Decimal,
    usdt: scrypto::math::Decimal,
    positions: Vec<u64>,
}

impl Account {
    fn withdraw(&mut self, moj: Decimal, usdt: Decimal) {
        assert!(self.moj >= outside(moj) && self.usdt >= outside(usdt));
        self.moj = self.moj - outside(moj);
        self.usdt = self.usdt - outside(usdt);
    }

    fn deposit(&mut self, moj: Decimal, usdt: Decimal) {
        self.moj = self.moj + outside(moj);
        self.usdt = self.usdt + outside(usdt);
    }
}

/// A test scenario context for the pool: an admin account that owns the two
/// assets and acts as faucet, and a pool with the given fee and price that
/// the admin has opened a first position in. MOJ is asset `a`, USDT asset `b`.
struct Context {
    pool: Pool,
    admin: Account,
    vault_moj: scrypto::math::Decimal,
    vault_usdt: scrypto::math::Decimal,
}

impl Context {
    fn new(
        fee: Decimal,
        sqrt_price: Decimal,
        low_sqrt_price: Decimal,
        high_sqrt_price: Decimal,
        moj_amount: Decimal,
        usdt_amount: Decimal,
    ) -> Self {
        let admin = Account {
            moj: scrypto::math::Decimal::from_str("10000000").unwrap(),
            usdt: scrypto::math::Decimal::from_str("10000000").unwrap(),
            positions: Vec::new(),
        };
        let mut context = Context {
            pool: Pool::new(fee, sqrt_price).unwrap(),
            admin,
            vault_moj: scrypto::math::Decimal::zero(),
            vault_usdt: scrypto::math::Decimal::zero(),
        };
        let mut admin = Account {
            moj: context.admin.moj,
            usdt: context.admin.usdt,
            positions: Vec::new(),
        };
        context.add_pos_at_prices(
            &mut admin,
            moj_amount,
            usdt_amount,
            low_sqrt_price,
            high_sqrt_price,
        );
        context.admin = admin;
        context
    }

    /// Creates a new account holding the given amounts, which the admin gives.
    fn new_account_with_moj_and_usdt(&mut self, moj_amount: Decimal, usdt_amount: Decimal) -> Account {
        self.admin.withdraw(moj_amount, usdt_amount);
        Account {
            moj: outside(moj_amount),
            usdt: outside(usdt_amount),
            positions: Vec::new(),
        }
    }

    fn add_pos_at_prices(
        &mut self,
        account: &mut Account,
        moj_amount: Decimal,
        usdt_amount: Decimal,
        low_sqrt_price: Decimal,
        high_sqrt_price: Decimal,
    ) -> (u64, Decimal, Decimal) {
        account.withdraw(moj_amount, usdt_amount);
        let low_tick = tick_math::tick_at_sqrt_price(low_sqrt_price).unwrap();
        let high_tick = tick_math::tick_at_sqrt_price(high_sqrt_price).unwrap();
        let (id, refund_moj, refund_usdt) = self
            .pool
            .add_position(low_tick, high_tick, moj_amount, usdt_amount)
            .unwrap();
        self.vault_moj = self.vault_moj + outside(moj_amount) - outside(refund_moj);
        self.vault_usdt = self.vault_usdt + outside(usdt_amount) - outside(refund_usdt);
        assert!(refund_moj.ge(&Decimal::zero()));
        assert!(refund_usdt.ge(&Decimal::zero()));
        account.deposit(refund_moj, refund_usdt);
        account.positions.push(id);
        (id, refund_moj, refund_usdt)
    }

    /// Adds a new position to the pool, owned by the given account.
    fn add_pos(
        &mut self,
        account: &mut Account,
        moj_amount: Decimal,
        usdt_amount: Decimal,
        low_tick: i32,
        high_tick: i32,
    ) -> u64 {
        self.add_pos_at_prices(
            account,
            moj_amount,
            usdt_amount,
            tick_math::sqrt_price_at_tick(low_tick).unwrap(),
            tick_math::sqrt_price_at_tick(high_tick).unwrap(),
        )
        .0
    }

    /// Adds more liquidity to the first position of the given account.
    fn add_liq(&mut self, account: &mut Account, usdt_amount: Decimal, moj_amount: Decimal) {
        account.withdraw(moj_amount, usdt_amount);
        let (refund_moj, refund_usdt) = self
            .pool
            .add_liquidity(account.positions[0], moj_amount, usdt_amount)
            .unwrap();
        self.vault_moj = self.vault_moj + outside(moj_amount) - outside(refund_moj);
        self.vault_usdt = self.vault_usdt + outside(usdt_amount) - outside(refund_usdt);
        account.deposit(refund_moj, refund_usdt);
    }

    fn take_from_vaults(&mut self, moj: Decimal, usdt: Decimal) {
        assert!(self.vault_moj >= outside(moj), "the pool holds too little MOJ");
        assert!(self.vault_usdt >= outside(usdt), "the pool holds too little USDT");
        self.vault_moj = self.vault_moj - outside(moj);
        self.vault_usdt = self.vault_usdt - outside(usdt);
    }

    fn remove_admin_pos(&mut self, expected_moj_amount: Decimal, expected_usdt_amount: Decimal) {
        let id = self.admin.positions.remove(0);
        let (moj, usdt) = self.pool.remove_position(id).unwrap();
        assert!(moj.ge(&expected_moj_amount), "{} MOJ", text(moj));
        assert!(usdt.ge(&expected_usdt_amount), "{} USDT", text(usdt));
        self.take_from_vaults(moj, usdt);
        self.admin.deposit(moj, usdt);
    }

    /// Removes the first position of the given account and checks that the
    /// account got at least the expected amounts.
    fn remove_pos(
        &mut self,
        account: &mut Account,
        expected_moj_amount: Decimal,
        expected_usdt_amount: Decimal,
    ) -> (Decimal, Decimal) {
        let id = account.positions.remove(0);
        let (moj, usdt) = self.pool.remove_position(id).unwrap();
        assert!(moj.ge(&expected_moj_amount), "{} MOJ", text(moj));
        assert!(usdt.ge(&expected_usdt_amount), "{} USDT", text(usdt));
        self.take_from_vaults(moj, usdt);
        account.deposit(moj, usdt);
        (moj, usdt)
    }

    /// Collects the fees of the first position of the given account and
    /// checks that they are at least the expected amounts.
    fn collect_fees(
        &mut self,
        account: &mut Account,
        expected_moj_amount: Decimal,
        expected_usdt_amount: Decimal,
    ) -> (Decimal, Decimal) {
        let (moj, usdt) = self.pool.collect_fees(account.positions[0]).unwrap();
        assert!(moj.ge(&expected_moj_amount), "{} MOJ", text(moj));
        assert!(usdt.ge(&expected_usdt_amount), "{} USDT", text(usdt));
        self.take_from_vaults(moj, usdt);
        account.deposit(moj, usdt);
        (moj, usdt)
    }

    /// Swaps MOJ of the given account for USDT and checks that at least the
    /// expected amount comes out and that no MOJ comes back short.
    fn swap_moj_for_usdt(
        &mut self,
        account: &mut Account,
        moj_amount: Decimal,
        exp_usdt_amount: Decimal,
    ) -> (Decimal, Decimal) {
        account.withdraw(moj_amount, Decimal::zero());
        let (usdt, unused) = self.pool.swap(moj_amount, true).unwrap();
        assert!(unused.ge(&Decimal::zero()));
        assert!(usdt.ge(&exp_usdt_amount), "{} USDT", text(usdt));
        self.vault_moj = self.vault_moj + outside(moj_amount) - outside(unused);
        self.take_from_vaults(Decimal::zero(), usdt);
        account.deposit(unused, usdt);
        (usdt, unused)
    }

    /// Swaps USDT of the given account for MOJ and checks that at least the
    /// expected amount comes out.
    fn swap_usdt_for_moj(
        &mut self,
        account: &mut Account,
        usdt_amount: Decimal,
        exp_moj_amount: Decimal,
    ) -> (Decimal, Decimal) {
        account.withdraw(Decimal::zero(), usdt_amount);
        let (moj, unused) = self.pool.swap(usdt_amount, false).unwrap();
        assert!(unused.ge(&Decimal::zero()));
        assert!(moj.ge(&exp_moj_amount), "{} MOJ", text(moj));
        self.vault_usdt = self.vault_usdt + outside(usdt_amount) - outside(unused);
        self.take_from_vaults(moj, Decimal::zero());
        account.deposit(moj, unused);
        (moj, unused)
    }
}

fn price_at(tick: i32) -> Decimal {
    tick_math::sqrt_price_at_tick(tick).unwrap()
}

fn standard_context(fee: &str) -> Context {
    Context::new(
        dec(fee),
        Decimal::one(),
        price_at(-1000),
        price_at(1000),
        dec("10000"),
        dec("10000"),
    )
}

/// Add position: the state of the pool after a second position is as expected.
#[test]
fn add_pos() {
    let mut context = standard_context("0");
    let mut account = context.new_account_with_moj_and_usdt(dec("10000"), dec("10000"));
    let id = context.add_pos(&mut account, dec("10000"), dec("10000"), -1000, 1000);

    assert_eq!(inside(context.vault_moj), dec("19999.999999999999939578"));
    assert_eq!(inside(context.vault_usdt), dec("20000"));
    assert_eq!(context.pool.active_liquidity, dec("410103.325362140397360716"));
    let used_ticks: Vec<i32> = context.pool.ticks.entries.iter().map(|entry| entry.tick).collect();
    assert_eq!(used_ticks, vec![-1000, 1000]);
    assert_eq!(context.pool.positions.len(), 2);
    for position in context.pool.positions.iter() {
        assert_eq!(position.liquidity, dec("205051.662681070198680358"));
        assert_eq!(position.low_tick, -1000);
        assert_eq!(position.high_tick, 1000);
        assert_eq!(position.fee_growth_inside_a_last, Decimal::zero());
        assert_eq!(position.fee_growth_inside_b_last, Decimal::zero());
    }
    let index = context.pool.find_position(id).unwrap();
    assert_eq!(
        context.pool.positions[index].liquidity,
        dec("205051.662681070198680358")
    );
    assert!(context.pool.positions.iter().any(|position| position.id == id));
}

/// Add liquidity: a smoke test that liquidity can be added to a position.
#[test]
fn add_liq() {
    let mut context = standard_context("0");
    let mut account = context.new_account_with_moj_and_usdt(dec("20000"), dec("20000"));
    context.add_pos(&mut account, dec("10000"), dec("10000"), -1000, 1000);
    context.add_liq(&mut account, dec("10000"), dec("10000"));
}

/// Add a position, then remove it: the same amounts come back, or a bit less.
#[test]
fn scenario_1() {
    let mut context = standard_context("0");
    let mut account = context.new_account_with_moj_and_usdt(dec("10000"), dec("10000"));
    context.add_pos(&mut account, dec("10000"), dec("10000"), -1000, 1000);
    context.remove_pos(
        &mut account,
        dec("9999.99999999999985322"),
        dec("9999.999999999999999999"),
    );
}

/// Single range swap of MOJ at a fee of 0.01.
#[test]
fn scenario_2() {
    let mut context = standard_context("0.01");
    let mut account = context.new_account_with_moj_and_usdt(dec("15000"), dec("10000"));
    context.add_pos(&mut account, dec("10000"), dec("10000"), -1000, 1000);
    context.swap_moj_for_usdt(&mut account, dec("5000"), dec("4833.322352370076335998"));
}

/// Single range swap of MOJ against ten positions of 1000 each.
#[test]
fn scenario_3() {
    let mut context = standard_context("0.01");
    let mut account = context.new_account_with_moj_and_usdt(dec("15000"), dec("10000"));
    for _i in 0..10 {
        context.add_pos(&mut account, dec("1000"), dec("1000"), -1000, 1000);
    }
    context.swap_moj_for_usdt(&mut account, dec("5000"), dec("4833.322352370076335998"));
}

/// Swapping 10000 MOJ for USDT and the USDT back gives the same amount or a
/// bit less.
#[test]
fn scenario_4() {
    let mut context = standard_context("0");
    let mut account = context.new_account_with_moj_and_usdt(dec("20000"), dec("10000"));
    context.add_pos(&mut account, dec("10000"), dec("10000"), -1000, 1000);
    context.swap_moj_for_usdt(&mut account, dec("10000"), dec("9761.963321966572685348"));
    let (moj, _) = context.swap_usdt_for_moj(
        &mut account,
        dec("9761.963321966572685348"),
        dec("9999.999999999999589896"),
    );
    assert!(moj.le(&dec("10000")));
}

/// A swap of about 10512 MOJ right to the end of the range at tick -1000.
#[test]
fn scenario_5() {
    let mut context = standard_context("0");
    let mut account = context.new_account_with_moj_and_usdt(dec("30000"), dec("30000"));
    context.add_pos(&mut account, dec("10000"), dec("10000"), -1000, 1000);
    context.swap_moj_for_usdt(
        &mut account,
        dec("10512.684683767608857909"),
        dec("9999.999999999957144202"),
    );
}

/// Limit order and multiple range swap: a position of 1000 MOJ over the ticks
/// 199 to 200 is all USDT once the price has moved past its range.
#[test]
fn scenario_6() {
    let mut context = standard_context("0");
    let mut account = context.new_account_with_moj_and_usdt(dec("20000"), dec("20000"));
    context.add_pos(&mut account, dec("10000"), dec("10000"), -1000, 1000);

    let mut account2 = context.new_account_with_moj_and_usdt(dec("20000"), dec("20000"));
    context.add_pos(&mut account2, dec("1000"), Decimal::zero(), 199, 200);

    context.swap_usdt_for_moj(&mut account, dec("8000"), dec("7750.081465536550594191"));
    // The liquidity that 1000 MOJ buy over this range would stand for
    // 1000.00000000000000059 MOJ and pay out 1020.149313703371480602 USDT. It
    // is lowered until it stands for no more than the 1000 MOJ offered.
    let (moj, usdt) =
        context.remove_pos(&mut account2, Decimal::zero(), dec("1020.149313703371479999"));
    assert_eq!(moj, Decimal::zero());
    assert_eq!(usdt, dec("1020.149313703371479999"));
}

/// Single range swap of USDT at a fee of 0.01.
#[test]
fn scenario_7() {
    let mut context = standard_context("0.01");
    let mut account = context.new_account_with_moj_and_usdt(dec("10000"), dec("15000"));
    context.add_pos(&mut account, dec("10000"), dec("10000"), -1000, 1000);
    context.swap_usdt_for_moj(&mut account, dec("5000"), dec("4833.322352370076335998"));
}

/// Single range swap of USDT against ten positions of 1000 each.
#[test]
fn scenario_8() {
    let mut context = standard_context("0.01");
    let mut account = context.new_account_with_moj_and_usdt(dec("10000"), dec("15000"));
    for _i in 0..10 {
        context.add_pos(&mut account, dec("1000"), dec("1000"), -1000, 1000);
    }
    context.swap_usdt_for_moj(&mut account, dec("5000"), dec("4833.322352370076335998"));
}

/// Collect fees: of two positions only the one in range earns.
#[test]
fn scenario_10() {
    let mut context = standard_context("0.01");
    context.remove_admin_pos(
        dec("9999.999999999999969789"),
        dec("9999.999999999999999999"),
    );
    let mut account1 = context.new_account_with_moj_and_usdt(dec("15000"), dec("10000"));
    context.add_pos(&mut account1, dec("10000"), dec("10000"), -1000, 1000);
    let mut account2 = context.new_account_with_moj_and_usdt(dec("15000"), dec("10000"));
    context.add_pos(&mut account2, dec("10000"), dec("10000"), 2000, 4000);
    context.swap_moj_for_usdt(&mut account1, dec("5000"), dec("4833.322352370076335998"));
    context.collect_fees(&mut account1, dec("49.999999999999999999"), Decimal::zero());
    context.collect_fees(&mut account2, Decimal::zero(), Decimal::zero());
}

/// Collect fees: they can be collected only once.
#[test]
fn scenario_11() {
    let mut context = Context::new(
        dec("0.01"),
        price_at(3000),
        price_at(2000),
        price_at(4000),
        dec("10000"),
        dec("10000"),
    );
    context.remove_admin_pos(
        dec("7408.293322976009370503"),
        dec("9999.999999999999999999"),
    );
    let mut account = context.new_account_with_moj_and_usdt(dec("15000"), dec("10000"));
    context.add_pos(&mut account, dec("10000"), dec("10000"), 2000, 4000);
    context.swap_moj_for_usdt(&mut account, dec("5000"), dec("6470.845461125638454765"));
    context.collect_fees(&mut account, dec("49.999999999999855277"), Decimal::zero());
    let (moj, usdt) = context.collect_fees(&mut account, Decimal::zero(), Decimal::zero());
    assert_eq!(moj, Decimal::zero());
    assert_eq!(usdt, Decimal::zero());
}

/// Collect fees: two positions over nested ranges share by their liquidity.
#[test]
fn scenario_12() {
    let mut context = standard_context("0.01");
    context.remove_admin_pos(
        dec("9999.999999999999969789"),
        dec("9999.999999999999999999"),
    );
    let mut account1 = context.new_account_with_moj_and_usdt(dec("15000"), dec("10000"));
    context.add_pos(&mut account1, dec("10000"), dec("10000"), -1000, 1000);

    let mut account2 = context.new_account_with_moj_and_usdt(dec("10000"), dec("10000"));
    context.add_pos(&mut account2, dec("10000"), dec("10000"), -2000, 2000);

    context.swap_moj_for_usdt(&mut account1, dec("5000"), dec("4833.322352370086235614"));

    context.collect_fees(&mut account1, dec("33.057921794207346548"), Decimal::zero());
    context.collect_fees(&mut account2, dec("16.942078205792448383"), Decimal::zero());
}

/// Collect fees: a wide position of ten times the amounts.
#[test]
fn scenario_13() {
    let mut context = standard_context("0.01");
    context.remove_admin_pos(
        dec("9999.999999999999969789"),
        dec("9999.999999999999999999"),
    );
    let mut account1 = context.new_account_with_moj_and_usdt(dec("15000"), dec("10000"));
    context.add_pos(&mut account1, dec("10000"), dec("10000"), -1000, 1000);
    let mut account2 = context.new_account_with_moj_and_usdt(dec("100000"), dec("100000"));
    context.add_pos(&mut account2, dec("100000"), dec("100000"), -10000, 10000);
    context.swap_moj_for_usdt(&mut account1, dec("5000"), dec("4891.685469231850922674"));
    context.collect_fees(&mut account1, dec("22.326525600505424713"), Decimal::zero());
    context.collect_fees(&mut account2, dec("27.673474399494349869"), Decimal::zero());
}

/// Multiple range swap: up the ticks and down again.
#[test]
fn scenario_14() {
    let mut context = standard_context("0");
    context.remove_admin_pos(
        dec("9999.999999999999969789"),
        dec("9999.999999999999999999"),
    );
    let mut account = context.new_account_with_moj_and_usdt(dec("100000"), dec("100000"));
    context.add_pos(&mut account, dec("10000"), dec("10000"), -1000, 1000);
    context.add_pos(&mut account, dec("10000"), Decimal::zero(), 100, 200);
    context.add_pos(&mut account, dec("10000"), Decimal::zero(), 200, 300);
    context.swap_usdt_for_moj(&mut account, dec("20000"), dec("19647.863604192115415544"));
    context.swap_moj_for_usdt(
        &mut account,
        dec("19647.863604192115415544"),
        dec("19999.999999999994361019"),
    );
}

/// Liquidity limit: of 11000 MOJ only about 10512 can be swapped, and the
/// rest comes back.
#[test]
fn scenario_15() {
    let mut context = standard_context("0");
    context.remove_admin_pos(
        dec("9999.999999999999969789"),
        dec("9999.999999999999999999"),
    );
    let mut account = context.new_account_with_moj_and_usdt(dec("30000"), dec("30000"));
    context.add_pos(&mut account, dec("10000"), dec("10000"), -1000, 1000);
    let (_, unused) =
        context.swap_moj_for_usdt(&mut account, dec("11000"), dec("9999.999999999957144202"));
    assert!(unused.ge(&dec("487")) && unused.le(&dec("488")));
}

/// Collect fees: two equal positions split the fee equally.
#[test]
fn scenario_16() {
    let mut context = standard_context("0.01");
    context.remove_admin_pos(
        dec("9999.999999999999969789"),
        dec("9999.999999999999999999"),
    );
    let mut account1 = context.new_account_with_moj_and_usdt(dec("100000"), dec("100000"));
    let mut account2 = context.new_account_with_moj_and_usdt(dec("100000"), dec("100000"));
    context.add_pos(&mut account1, dec("10000"), dec("10000"), -1000, 1000);
    context.add_pos(&mut account2, dec("10000"), dec("10000"), -1000, 1000);
    context.swap_moj_for_usdt(&mut account1, dec("5000"), dec("4890.96541696510667305"));
    let first = context.collect_fees(&mut account1, dec("24.999999999999999999"), Decimal::zero());
    let second = context.collect_fees(&mut account2, dec("24.999999999999999999"), Decimal::zero());
    assert_eq!(first, second);
}

#[test]
fn unknown_token_is_refused() {
    let mut context = standard_context("0");
    assert_eq!(
        context.pool.collect_fees(77),
        Err(PoolError::InsufficientOwnership)
    );
}

/// Add the accumulated fees to the liquidity of a position: after a swap
/// there and back the fees of a position buy it more liquidity, and what they
/// do not buy stays owed.
///
/// What stays owed is what was owed less what the deposit kept,
/// 0.486127107175957542 MOJ. Reckoning that remainder anew on the enlarged
/// liquidity would hand out 0.487730419238072792 MOJ, more than was earned.
#[test]
fn scenario_9() {
    let mut context = Context::new(
        dec("0.01"),
        price_at(3000),
        price_at(2000),
        price_at(4000),
        dec("10000"),
        dec("10000"),
    );
    let mut account = context.new_account_with_moj_and_usdt(dec("15000"), dec("15000"));
    let id = context.add_pos(&mut account, dec("10000"), dec("10000"), 2000, 4000);
    let (usdt, _) =
        context.swap_moj_for_usdt(&mut account, dec("5000"), dec("6574.583002247458274286"));
    assert_eq!(usdt, dec("6574.583002247458274286"));
    assert_eq!(context.pool.current_tick, 2676);
    let (moj, _) = context.swap_usdt_for_moj(
        &mut account,
        dec("6574.583002247458274286"),
        dec("4901.285751004560687604"),
    );
    assert_eq!(moj, dec("4901.285751004560687604"));
    assert_eq!(context.pool.current_tick, 2996);
    assert_eq!(context.pool.sqrt_price, dec("1.161639271198252413"));

    let (added, owed_moj, owed_usdt) = context.pool.compound_fees(id).unwrap();
    assert_eq!(added, dec("582.09062010723962364"));
    assert_eq!(owed_moj, dec("0.486127107175957542"));
    assert_eq!(owed_usdt, Decimal::zero());
    let index = context.pool.find_position(id).unwrap();
    assert_eq!(
        context.pool.positions[index].liquidity,
        dec("177073.015857662514458368")
    );
    assert_eq!(context.pool.active_liquidity, dec("353563.941095217789293096"));

    let fees = context.collect_fees(&mut account, Decimal::zero(), Decimal::zero());
    assert_eq!(fees, (dec("0.486127107175957542"), Decimal::zero()));
    let amounts = context.remove_pos(
        &mut account,
        dec("7457.164320366552918974"),
        dec("9999.999999999999823508"),
    );
    assert_eq!(
        amounts,
        (dec("7457.164320366552918974"), dec("9999.999999999999823508"))
    );
}

/// The active liquidity is that of the positions whose range holds the
/// current tick, after every operation of a walk up and down the ticks.
#[test]
fn active_liquidity_is_the_sum_over_the_positions_in_range() {
    fn check(pool: &Pool) {
        let mut sum = scrypto::math::Decimal::zero();
        for position in pool.positions.iter() {
            if position.low_tick <= pool.current_tick && pool.current_tick < position.high_tick {
                sum = sum + outside(position.liquidity);
            }
        }
        assert_eq!(inside(sum), pool.active_liquidity);
    }
    let mut pool = Pool::new(dec("0.003"), Decimal::one()).unwrap();
    let mut ids = Vec::new();
    for (low, high) in [(-1000, 1000), (100, 200), (200, 300), (-300, -100), (-50, 250)] {
        ids.push(
            pool.add_position(low, high, dec("10000"), dec("10000"))
                .unwrap()
                .0,
        );
        check(&pool);
    }
    for (amount, a_for_b) in [
        ("20000", false),
        ("3", true),
        ("0.000000000000000001", true),
        ("30000", true),
        ("0.00001", false),
        ("100000", true),
        ("40000", false),
    ] {
        let (output, unused) = pool.swap(dec(amount), a_for_b).unwrap();
        assert!(output.ge(&Decimal::zero()));
        assert!(unused.ge(&Decimal::zero()) && unused.le(&dec(amount)));
        check(&pool);
    }
    pool.add_liquidity(ids[1], dec("500"), dec("500")).unwrap();
    check(&pool);
    pool.compound_fees(ids[0]).unwrap();
    check(&pool);
    for id in ids {
        pool.remove_position(id).unwrap();
        check(&pool);
    }
    assert_eq!(pool.active_liquidity, Decimal::zero());
    assert!(pool.ticks.entries.is_empty());
}

#[test]
fn swap_stops_at_its_limit() {
    let mut context = standard_context("0");
    let limit = price_at(-500);
    let (output, unused) = context
        .pool
        .swap_with_limit(dec("100000"), true, limit)
        .unwrap();
    assert_eq!(context.pool.sqrt_price, limit);
    assert_eq!(context.pool.current_tick, -500);
    assert!(unused.gt(&dec("94000")));
    assert!(output.gt(&dec("5000")) && output.lt(&dec("5100")));
    let again = context.pool.swap_with_limit(dec("1"), true, limit).unwrap();
    assert_eq!(again, (Decimal::zero(), dec("1")));
    assert_eq!(
        context.pool.swap_with_limit(dec("1"), true, Decimal::zero()),
        Err(PoolError::OutOfBounds)
    );
    assert_eq!(context.pool.swap(dec("-1"), true), Err(PoolError::OutOfBounds));
}

#[test]
fn swap_without_liquidity_hands_the_input_back() {
    let mut pool = Pool::new(dec("0.01"), Decimal::one()).unwrap();
    assert_eq!(pool.swap(dec("5"), true), Ok((Decimal::zero(), dec("5"))));
    assert_eq!(pool.sqrt_price, Decimal::one());
    pool.add_position(100, 200, dec("10"), Decimal::zero()).unwrap();
    assert_eq!(pool.swap(dec("5"), true), Ok((Decimal::zero(), dec("5"))));
    let (output, unused) = pool.swap(dec("5"), false).unwrap();
    assert!(output.gt(&dec("4.8")) && unused.eq(&Decimal::zero()));
    assert!(pool.current_tick >= 100 && pool.current_tick < 200);
}

#[test]
fn pool_refusals_change_nothing() {
    let mut context = standard_context("0.01");
    let price = context.pool.sqrt_price;
    let active = context.pool.active_liquidity;
    let pool = &mut context.pool;
    assert_eq!(
        pool.add_position(1000, 1000, dec("1"), dec("1")),
        Err(PoolError::InvalidRange)
    );
    assert_eq!(
        pool.add_position(1000, -1000, dec("1"), dec("1")),
        Err(PoolError::InvalidRange)
    );
    assert_eq!(
        pool.add_position(tick_math::MIN_TICK - 1, 0, dec("1"), dec("1")),
        Err(PoolError::InvalidRange)
    );
    assert_eq!(
        pool.add_position(0, tick_math::MAX_TICK + 1, dec("1"), dec("1")),
        Err(PoolError::InvalidRange)
    );
    assert_eq!(
        pool.add_position(-10, 10, Decimal::zero(), Decimal::zero()),
        Err(PoolError::ZeroLiquidity)
    );
    assert_eq!(
        pool.add_position(-10, 10, dec("-1"), dec("1")),
        Err(PoolError::OutOfBounds)
    );
    assert_eq!(pool.remove_position(9), Err(PoolError::InsufficientOwnership));
    assert_eq!(
        pool.add_liquidity(9, dec("1"), dec("1")),
        Err(PoolError::InsufficientOwnership)
    );
    assert_eq!(pool.compound_fees(9), Err(PoolError::InsufficientOwnership));
    assert_eq!(pool.compound_fees(1), Err(PoolError::ZeroLiquidity));
    assert_eq!(pool.positions.len(), 1);
    assert_eq!(pool.ticks.entries.len(), 2);
    assert_eq!(pool.sqrt_price, price);
    assert_eq!(pool.active_liquidity, active);
    assert!(Pool::new(dec("1"), Decimal::one()).is_err());
    assert!(Pool::new(dec("-0.01"), Decimal::one()).is_err());
    assert!(Pool::new(dec("0.01"), Decimal::zero()).is_err());
}

/// Closing a position right after opening it leaves the pool as it was and
/// hands out no more than the opening kept.
#[test]
fn closing_right_after_opening_restores_the_pool() {
    let mut context = standard_context("0.01");
    let mut account = context.new_account_with_moj_and_usdt(dec("50000"), dec("50000"));
    context.add_pos(&mut account, dec("1000"), dec("500"), -200, 700);
    context.swap_moj_for_usdt(&mut account, dec("300"), Decimal::zero());
    for (low, high) in [(-1000, 1000), (-200, 5), (3, 4), (-3000, -2000), (900, 2000)] {
        let pool = &mut context.pool;
        let ticks = pool.ticks.entries.clone();
        let positions = pool.positions.clone();
        let active = pool.active_liquidity;
        let offered = (dec("1234.5"), dec("987.65"));
        let (id, refund_a, refund_b) = pool.add_position(low, high, offered.0, offered.1).unwrap();
        let (back_a, back_b) = pool.remove_position(id).unwrap();
        assert!(outside(back_a) <= outside(offered.0) - outside(refund_a));
        assert!(outside(back_b) <= outside(offered.1) - outside(refund_b));
        assert_eq!(pool.ticks.entries, ticks);
        assert_eq!(pool.positions, positions);
        assert_eq!(pool.active_liquidity, active);
        assert_eq!(pool.next_position_id, id + 1);
    }
}

/// Where rounding would make the liquidity bought stand for more of the first
/// asset than was offered, the liquidity is lowered.
#[test]
fn liquidity_stands_for_no_more_than_was_offered() {
    let mut pool = Pool::new(Decimal::zero(), dec("0.908954289095748931")).unwrap();
    let offered = dec("55659554.773013293124176084");
    let (id, refund_a, _) = pool
        .add_position(-2105, -773, offered, dec("81296419.546892454075031775"))
        .unwrap();
    assert_eq!(refund_a, Decimal::zero());
    assert_eq!(pool.active_liquidity, dec("916045078.623557788305780598"));
    let (back_a, back_b) = pool.remove_position(id).unwrap();
    assert!(back_a.le(&offered));
    assert_eq!(back_a, dec("55659554.773013293124176082"));
    assert_eq!(back_b, dec("8107075.011611003504767192"));
}
