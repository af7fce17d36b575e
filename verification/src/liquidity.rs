//! What amounts a liquidity stands for over a price range, and what deposit
//! two amounts make.
//!
//! Over a range of square-root prices from `low` to `high`, at the price
//! `price`, a liquidity `l` stands for `l * (high - price) / (price * high)`
//! of the first asset and `l * (price - low)` of the second, with `price`
//! taken no lower than `low` and no higher than `high`.

use crate::checked::{difference_of, held, minus, over, product_of, quotient_of, times};
use crate::decimal::{div_fixed, mul_fixed, scale, Decimal};
use crate::error::PoolError;
use crate::fixed_point::{lemma_div_fixed_bounds, lemma_mul_fixed_bounds, lemma_mul_fixed_monotone, lemma_quotient_times_divisor};
use vstd::prelude::*;

verus! {

/// The inverse of `price`.
pub open spec fn inverse_of(price: int) -> Option<int> {
    quotient_of(Some(scale()), Some(price))
}

/// `price`, but no lower than `low`.
pub open spec fn raised_to(price: int, low: int) -> int {
    if price <= low {
        low
    } else {
        price
    }
}

/// The amount of the first asset that `liquidity` stands for over the range
/// from `low` to `high` at `price`: none at or above `high`, and below it
/// `liquidity * (high - p) / (p * high)`, where `p` is `price` raised to
/// `low`.
pub open spec fn amount_a_for(price: int, low: int, high: int, liquidity: int) -> Option<int> {
    if price >= high {
        Some(0)
    } else {
        let p = raised_to(price, low);
        quotient_of(
            product_of(Some(liquidity), difference_of(Some(high), Some(p))),
            product_of(Some(p), Some(high)),
        )
    }
}

/// The amount of the second asset that `liquidity` stands for over the range
/// from `low` to `high` at `price`.
pub open spec fn amount_b_for(price: int, low: int, high: int, liquidity: int) -> Option<int> {
    if price >= high {
        product_of(Some(liquidity), difference_of(Some(high), Some(low)))
    } else if price <= low {
        Some(0)
    } else {
        product_of(Some(liquidity), difference_of(Some(price), Some(low)))
    }
}

/// The amounts of the two assets that `liquidity` stands for; see
/// `amount_a_for` and `amount_b_for`.
pub fn amounts_for_liquidity(price: Decimal, low: Decimal, high: Decimal, liquidity: Decimal) -> (r:
    Result<(Decimal, Decimal), PoolError>)
    ensures
        r.is_ok() == (amount_a_for(price@, low@, high@, liquidity@).is_some() && amount_b_for(
            price@,
            low@,
            high@,
            liquidity@,
        ).is_some()),
        r matches Ok(amounts) ==> Some(amounts.0@) == amount_a_for(
            price@,
            low@,
            high@,
            liquidity@,
        ) && Some(amounts.1@) == amount_b_for(price@, low@, high@, liquidity@),
        r matches Err(e) ==> e == PoolError::Overflow,
{
    let zero = Decimal::zero();
    if price.ge(&high) {
        let span = minus(high, low)?;
        Ok((zero, times(liquidity, span)?))
    } else if price.le(&low) {
        let amount_a = over(times(liquidity, minus(high, low)?)?, times(low, high)?)?;
        Ok((amount_a, zero))
    } else {
        let amount_a = over(times(liquidity, minus(high, price)?)?, times(price, high)?)?;
        let amount_b = times(liquidity, minus(price, low)?)?;
        Ok((amount_a, amount_b))
    }
}

/// What opening or enlarging a position takes: the liquidity bought and the
/// amounts kept of the two assets.
#[derive(Clone, Copy, Debug, PartialEq, Eq, Structural)]
pub struct Deposit {
    pub liquidity: Decimal,
    pub used_a: Decimal,
    pub used_b: Decimal,
}

/// The views of a deposit.
pub struct DepositView {
    pub liquidity: int,
    pub used_a: int,
    pub used_b: int,
}

impl View for Deposit {
    type V = DepositView;

    open spec fn view(&self) -> DepositView {
        DepositView { liquidity: self.liquidity@, used_a: self.used_a@, used_b: self.used_b@ }
    }
}

/// The lesser of two numbers.
pub open spec fn lesser(x: int, y: int) -> int {
    if x <= y {
        x
    } else {
        y
    }
}

/// The liquidity that `amount` of the first asset buys from `price` up to
/// `high`: `amount * price * high / (high - price)`.
pub open spec fn liquidity_from_a(price: int, high: int, amount: int) -> Option<int> {
    quotient_of(
        product_of(product_of(Some(amount), Some(price)), Some(high)),
        difference_of(Some(high), Some(price)),
    )
}

/// The liquidity that `amount` of the second asset buys from `low` up to
/// `price`: `amount / (price - low)`.
pub open spec fn liquidity_from_b(price: int, low: int, amount: int) -> Option<int> {
    quotient_of(Some(amount), difference_of(Some(price), Some(low)))
}

/// The liquidity that the offered amounts buy over the range from `low` to
/// `high` at `price`: below the range what the first asset buys, above it
/// what the second buys, within it the lesser of the two.
pub open spec fn bought_liquidity(price: int, low: int, high: int, amount_a: int, amount_b: int)
    -> Option<int> {
    if price <= low {
        liquidity_from_a(low, high, amount_a)
    } else if price >= high {
        liquidity_from_b(high, low, amount_b)
    } else {
        let by_a = liquidity_from_a(price, high, amount_a);
        let by_b = liquidity_from_b(price, low, amount_b);
        if by_a.is_some() && by_b.is_some() {
            Some(lesser(by_a.unwrap(), by_b.unwrap()))
        } else {
            None
        }
    }
}

/// A liquidity that surely stands for no more than `amount` of the first
/// asset: `amount * (p * high) / (high - p)`, where `p` is `price` raised to
/// `low`. It differs from the liquidity that `amount` buys in the order of
/// the products, and so in its rounding.
pub open spec fn liquidity_cap(price: int, low: int, high: int, amount: int) -> Option<int> {
    let p = raised_to(price, low);
    quotient_of(
        product_of(Some(amount), product_of(Some(p), Some(high))),
        difference_of(Some(high), Some(p)),
    )
}

/// The liquidity `bought`, lowered where rounding has made it stand for more
/// of the first asset than `amount_a`: then it is no more than
/// `liquidity_cap`.
pub open spec fn covered_liquidity(price: int, low: int, high: int, bought: int, amount_a: int)
    -> Option<int> {
    match amount_a_for(price, low, high, bought) {
        None => None,
        Some(stands_for) => if stands_for <= amount_a {
            Some(bought)
        } else {
            match liquidity_cap(price, low, high, amount_a) {
                None => None,
                Some(cap) => Some(lesser(bought, cap)),
            }
        },
    }
}

/// The deposit that the offered amounts make over the range from `low` to
/// `high` at `price`.
///
/// The liquidity is what the amounts buy, lowered where it would stand for
/// more of the first asset than was offered. Below the range all of the
/// first asset is kept and none of the second; above it the reverse. Within
/// it, the asset that buys the lesser liquidity is kept whole, the second
/// asset on a tie, and of the other what the liquidity stands for, never
/// more than was offered.
///
/// Refused, in this order: a negative amount, as out of bounds; a number that
/// cannot be held; a liquidity that is not positive.
pub open spec fn deposit_for(price: int, low: int, high: int, amount_a: int, amount_b: int)
    -> Result<DepositView, PoolError> {
    let bought = bought_liquidity(price, low, high, amount_a, amount_b);
    if amount_a < 0 || amount_b < 0 {
        Err(PoolError::OutOfBounds)
    } else if bought.is_none() {
        Err(PoolError::Overflow)
    } else {
        match covered_liquidity(price, low, high, bought.unwrap(), amount_a) {
            None => Err(PoolError::Overflow),
            Some(liquidity) => if price <= low {
                if liquidity <= 0 {
                    Err(PoolError::ZeroLiquidity)
                } else {
                    Ok(DepositView { liquidity, used_a: amount_a, used_b: 0 })
                }
            } else if price >= high {
                if liquidity <= 0 {
                    Err(PoolError::ZeroLiquidity)
                } else {
                    Ok(DepositView { liquidity, used_a: 0, used_b: amount_b })
                }
            } else if liquidity_from_a(price, high, amount_a).unwrap() < liquidity_from_b(
                price,
                low,
                amount_b,
            ).unwrap() {
                match amount_b_for(price, low, high, liquidity) {
                    None => Err(PoolError::Overflow),
                    Some(stands_for) => if liquidity <= 0 {
                        Err(PoolError::ZeroLiquidity)
                    } else {
                        Ok(
                            DepositView {
                                liquidity,
                                used_a: amount_a,
                                used_b: lesser(stands_for, amount_b),
                            },
                        )
                    },
                }
            } else {
                match amount_a_for(price, low, high, liquidity) {
                    None => Err(PoolError::Overflow),
                    Some(stands_for) => if liquidity <= 0 {
                        Err(PoolError::ZeroLiquidity)
                    } else {
                        Ok(
                            DepositView {
                                liquidity,
                                used_a: lesser(stands_for, amount_a),
                                used_b: amount_b,
                            },
                        )
                    },
                }
            },
        }
    }
}

/// The view of the outcome of a deposit.
pub open spec fn deposit_view(r: Result<Deposit, PoolError>) -> Result<DepositView, PoolError> {
    match r {
        Ok(deposit) => Ok(deposit@),
        Err(e) => Err(e),
    }
}

/// The lesser of two numbers.
fn least(x: Decimal, y: Decimal) -> (r: Decimal)
    ensures
        r@ == lesser(x@, y@),
{
    if x.le(&y) {
        x
    } else {
        y
    }
}

/// `price`, but no lower than `low`.
fn raise(price: Decimal, low: Decimal) -> (r: Decimal)
    ensures
        r@ == raised_to(price@, low@),
{
    if price.le(&low) {
        low
    } else {
        price
    }
}

/// The amount of the first asset that `liquidity` stands for; see
/// `amount_a_for`.
fn stands_for_a(price: Decimal, low: Decimal, high: Decimal, liquidity: Decimal) -> (r: Result<
    Decimal,
    PoolError,
>)
    ensures
        held(r) == amount_a_for(price@, low@, high@, liquidity@),
        r matches Err(e) ==> e == PoolError::Overflow,
{
    if price.ge(&high) {
        Ok(Decimal::zero())
    } else {
        let p = raise(price, low);
        over(times(liquidity, minus(high, p)?)?, times(p, high)?)
    }
}

/// Lowers `bought` where it stands for more of the first asset than
/// `amount_a`; see `covered_liquidity`.
fn cover(price: Decimal, low: Decimal, high: Decimal, bought: Decimal, amount_a: Decimal) -> (r:
    Result<Decimal, PoolError>)
    ensures
        held(r) == covered_liquidity(price@, low@, high@, bought@, amount_a@),
        r matches Err(e) ==> e == PoolError::Overflow,
{
    let stands_for = stands_for_a(price, low, high, bought)?;
    if stands_for.le(&amount_a) {
        Ok(bought)
    } else {
        let p = raise(price, low);
        let cap = over(times(amount_a, times(p, high)?)?, minus(high, p)?)?;
        Ok(least(bought, cap))
    }
}

/// The liquidity that the offered amounts buy; see `bought_liquidity`.
fn buy(price: Decimal, low: Decimal, high: Decimal, amount_a: Decimal, amount_b: Decimal) -> (r:
    Result<Decimal, PoolError>)
    ensures
        held(r) == bought_liquidity(price@, low@, high@, amount_a@, amount_b@),
        r matches Err(e) ==> e == PoolError::Overflow,
{
    if price.le(&low) {
        over(times(times(amount_a, low)?, high)?, minus(high, low)?)
    } else if price.ge(&high) {
        over(amount_b, minus(high, low)?)
    } else {
        let by_a = over(times(times(amount_a, price)?, high)?, minus(high, price)?)?;
        let by_b = over(amount_b, minus(price, low)?)?;
        Ok(least(by_a, by_b))
    }
}

/// Computes the deposit that the offered amounts make; see `deposit_for`.
pub fn deposit_amounts(
    price: Decimal,
    low: Decimal,
    high: Decimal,
    amount_a: Decimal,
    amount_b: Decimal,
) -> (r: Result<Deposit, PoolError>)
    ensures
        deposit_view(r) == deposit_for(price@, low@, high@, amount_a@, amount_b@),
{
    let zero = Decimal::zero();
    if amount_a.lt(&zero) || amount_b.lt(&zero) {
        return Err(PoolError::OutOfBounds);
    }
    let bought = buy(price, low, high, amount_a, amount_b)?;
    let liquidity = cover(price, low, high, bought, amount_a)?;
    if price.le(&low) {
        if !liquidity.gt(&zero) {
            return Err(PoolError::ZeroLiquidity);
        }
        Ok(Deposit { liquidity, used_a: amount_a, used_b: zero })
    } else if price.ge(&high) {
        if !liquidity.gt(&zero) {
            return Err(PoolError::ZeroLiquidity);
        }
        Ok(Deposit { liquidity, used_a: zero, used_b: amount_b })
    } else {
        let by_a = over(times(times(amount_a, price)?, high)?, minus(high, price)?)?;
        let by_b = over(amount_b, minus(price, low)?)?;
        if by_a.lt(&by_b) {
            let stands_for = times(liquidity, minus(price, low)?)?;
            if !liquidity.gt(&zero) {
                return Err(PoolError::ZeroLiquidity);
            }
            Ok(Deposit { liquidity, used_a: amount_a, used_b: least(stands_for, amount_b) })
        } else {
            let stands_for = stands_for_a(price, low, high, liquidity)?;
            if !liquidity.gt(&zero) {
                return Err(PoolError::ZeroLiquidity);
            }
            Ok(Deposit { liquidity, used_a: least(stands_for, amount_a), used_b: amount_b })
        }
    }
}

/// A liquidity that is not negative and no more than the cap of an amount
/// stands for no more than that amount of the first asset.
pub proof fn lemma_cap_covers(liquidity: int, amount: int, product: int, span: int)
    requires
        0 <= liquidity <= div_fixed(mul_fixed(amount, product), span),
        amount >= 0,
        product > 0,
        span > 0,
    ensures
        div_fixed(mul_fixed(liquidity, span), product) <= amount,
{
    let s = scale();
    let bound = mul_fixed(amount, product);
    let cap = div_fixed(bound, span);
    let reach = mul_fixed(liquidity, span);
    let stands_for = div_fixed(reach, product);
    lemma_mul_fixed_bounds(amount, product);
    lemma_div_fixed_bounds(bound, span);
    lemma_mul_fixed_bounds(liquidity, span);
    lemma_div_fixed_bounds(reach, product);
    assert(liquidity * span <= cap * span) by (nonlinear_arith)
        requires
            liquidity <= cap,
            span > 0,
    ;
    assert(stands_for <= amount) by (nonlinear_arith)
        requires
            stands_for * product <= reach * s,
            reach * s <= liquidity * span,
            liquidity * span <= cap * span,
            cap * span <= bound * s,
            bound * s <= amount * product,
            product > 0,
    ;
}

/// What the liquidity of a deposit stands for does not exceed what the
/// deposit kept of either asset.
pub proof fn lemma_deposit_covers_its_liquidity(
    price: int,
    low: int,
    high: int,
    amount_a: int,
    amount_b: int,
)
    requires
        0 < low < high,
        deposit_for(price, low, high, amount_a, amount_b).is_ok(),
    ensures
        ({
            let deposit = deposit_for(price, low, high, amount_a, amount_b).unwrap();
            let stands_a = amount_a_for(price, low, high, deposit.liquidity);
            let stands_b = amount_b_for(price, low, high, deposit.liquidity);
            &&& deposit.liquidity > 0
            &&& deposit.used_a <= amount_a
            &&& deposit.used_b <= amount_b
            &&& stands_b matches Some(b) ==> 0 <= b <= deposit.used_b
            &&& stands_a matches Some(a) ==> a <= deposit.used_a
        }),
{
    let deposit = deposit_for(price, low, high, amount_a, amount_b).unwrap();
    let bought = bought_liquidity(price, low, high, amount_a, amount_b).unwrap();
    let liquidity = deposit.liquidity;
    let p = raised_to(price, low);
    if price < high {
        let stands_for = amount_a_for(price, low, high, bought).unwrap();
        if stands_for > amount_a && amount_a_for(price, low, high, liquidity).is_some() {
            lemma_mul_fixed_bounds(p, high);
            lemma_cap_covers(liquidity, amount_a, mul_fixed(p, high), high - p);
        }
    }
    if price >= high {
        lemma_quotient_times_divisor(amount_b, high - low);
    } else if price > low {
        let span = price - low;
        let by_b = div_fixed(amount_b, span);
        lemma_quotient_times_divisor(amount_b, span);
        lemma_div_fixed_bounds(amount_b, span);
        lemma_mul_fixed_bounds(liquidity, span);
        lemma_mul_fixed_monotone(liquidity, by_b, span);
    }
}

} // verus!
