//! A signed fixed-point number with 18 fractional digits, held in 192 bits.
//!
//! The value is kept as three 64-bit limbs in two's complement, least
//! significant first. Its view is the number of `10^-18` units it stands for.
//! Sums, differences, products and quotients are carried out by `scrypto`'s
//! `Decimal`.

use scrypto::math::CheckedAdd;
use scrypto::math::CheckedDiv;
use scrypto::math::CheckedMul;
use scrypto::math::CheckedSub;
use scrypto::math::I192;
use vstd::prelude::*;

verus! {

/// `2^64`, the weight of the middle limb.
pub open spec fn limb_weight() -> int {
    0x1_0000_0000_0000_0000
}

/// `2^128`, the weight of the high limb.
pub open spec fn high_limb_weight() -> int {
    0x1_0000_0000_0000_0000_0000_0000_0000_0000int
}

/// `2^192`, the number of distinct values.
pub open spec fn modulus() -> int {
    0x1_0000_0000_0000_0000_0000_0000_0000_0000_0000_0000_0000_0000int
}

/// `2^191`: every value `v` has `-2^191 <= v < 2^191`.
pub open spec fn half_modulus() -> int {
    0x8000_0000_0000_0000_0000_0000_0000_0000_0000_0000_0000_0000int
}

/// The number of units in the value one: `10^18`.
pub open spec fn scale() -> int {
    1_000_000_000_000_000_000
}

/// Whether `v` is the view of some value.
pub open spec fn is_held(v: int) -> bool {
    -half_modulus() <= v < half_modulus()
}

/// Whether a product or quotient `q` is kept by the arithmetic. The most
/// negative value `-2^191` can be held but is never produced.
pub open spec fn is_produced(q: int) -> bool {
    -half_modulus() < q < half_modulus()
}

/// Division that rounds towards zero.
pub open spec fn trunc_div(n: int, d: int) -> int
    recommends
        d != 0,
{
    if n >= 0 && d > 0 {
        n / d
    } else if n >= 0 {
        -(n / (-d))
    } else if d > 0 {
        -((-n) / d)
    } else {
        (-n) / (-d)
    }
}

/// The fixed-point product of `a` and `b`, both in units: `a * b / 10^18`,
/// rounded towards zero.
pub open spec fn mul_fixed(a: int, b: int) -> int {
    trunc_div(a * b, scale())
}

/// The fixed-point quotient of `a` by `b`, both in units: `a * 10^18 / b`,
/// rounded towards zero.
pub open spec fn div_fixed(a: int, b: int) -> int
    recommends
        b != 0,
{
    trunc_div(a * scale(), b)
}

/// A fixed-point number of 18 fractional digits in 192 bits.
#[derive(Clone, Copy, Debug, PartialEq, Eq, Structural)]
pub struct Decimal {
    /// Bits 0 to 63.
    pub lo: u64,
    /// Bits 64 to 127.
    pub mid: u64,
    /// Bits 128 to 191; bit 191 is the sign.
    pub hi: u64,
}

impl View for Decimal {
    type V = int;

    /// The value in units of `10^-18`.
    open spec fn view(&self) -> int {
        let raw = self.lo as int + self.mid as int * limb_weight() + self.hi as int
            * high_limb_weight();
        if self.hi >= 0x8000_0000_0000_0000 {
            raw - modulus()
        } else {
            raw
        }
    }
}

impl Decimal {
    /// Builds a value from its limbs, least significant first.
    pub fn from_digits(digits: [u64; 3]) -> (d: Decimal)
        ensures
            d.lo == digits[0],
            d.mid == digits[1],
            d.hi == digits[2],
    {
        Decimal { lo: digits[0], mid: digits[1], hi: digits[2] }
    }

    /// The limbs of the value, least significant first.
    pub fn to_digits(&self) -> (digits: [u64; 3])
        ensures
            digits[0] == self.lo,
            digits[1] == self.mid,
            digits[2] == self.hi,
    {
        [self.lo, self.mid, self.hi]
    }

    /// The value zero.
    pub fn zero() -> (d: Decimal)
        ensures
            d@ == 0,
    {
        Decimal { lo: 0, mid: 0, hi: 0 }
    }

    /// The value one.
    pub fn one() -> (d: Decimal)
        ensures
            d@ == scale(),
    {
        Decimal { lo: 1_000_000_000_000_000_000, mid: 0, hi: 0 }
    }

    /// Two values with the same view have the same limbs.
    pub proof fn lemma_view_injective(a: Decimal, b: Decimal)
        requires
            a@ == b@,
        ensures
            a == b,
    {
    }

    /// Every value lies in `[-2^191, 2^191)`.
    pub proof fn lemma_view_bounds(a: Decimal)
        ensures
            -half_modulus() <= a@ < half_modulus(),
    {
    }

    /// Whether `self` is below zero.
    pub fn is_negative(&self) -> (r: bool)
        ensures
            r == (self@ < 0),
    {
        self.hi >= 0x8000_0000_0000_0000
    }

    /// Whether `self` and `other` are the same number.
    pub fn eq(&self, other: &Decimal) -> (r: bool)
        ensures
            r == (self@ == other@),
    {
        proof {
            if self@ == other@ {
                Self::lemma_view_injective(*self, *other);
            }
        }
        self.lo == other.lo && self.mid == other.mid && self.hi == other.hi
    }

    /// Whether `self` is less than `other`.
    pub fn lt(&self, other: &Decimal) -> (r: bool)
        ensures
            r == (self@ < other@),
    {
        let self_negative = self.is_negative();
        let other_negative = other.is_negative();
        if self_negative != other_negative {
            self_negative
        } else if self.hi != other.hi {
            self.hi < other.hi
        } else if self.mid != other.mid {
            self.mid < other.mid
        } else {
            self.lo < other.lo
        }
    }

    /// Whether `self` is at most `other`.
    pub fn le(&self, other: &Decimal) -> (r: bool)
        ensures
            r == (self@ <= other@),
    {
        !other.lt(self)
    }

    /// Whether `self` is greater than `other`.
    pub fn gt(&self, other: &Decimal) -> (r: bool)
        ensures
            r == (self@ > other@),
    {
        other.lt(self)
    }

    /// Whether `self` is at least `other`.
    pub fn ge(&self, other: &Decimal) -> (r: bool)
        ensures
            r == (self@ >= other@),
    {
        !self.lt(other)
    }
}

/// The value whose view is `v`, for a `v` that can be held.
pub open spec fn decimal_of(v: int) -> Decimal {
    choose|d: Decimal| d@ == v
}

/// A value is the value of its view.
pub proof fn lemma_decimal_of_view(d: Decimal)
    ensures
        decimal_of(d@) == d,
{
    Decimal::lemma_view_injective(decimal_of(d@), d);
}

/// Every number that can be held is the view of a value.
pub proof fn lemma_decimal_of_held(v: int)
    requires
        is_held(v),
    ensures
        decimal_of(v)@ == v,
{
    let raw = if v < 0 {
        v + modulus()
    } else {
        v
    };
    let witness = Decimal {
        lo: (raw % limb_weight()) as u64,
        mid: ((raw / limb_weight()) % limb_weight()) as u64,
        hi: (raw / high_limb_weight()) as u64,
    };
    assert(witness@ == v);
}

/// Multiplies through `scrypto::math::Decimal::checked_mul`. That function
/// widens both factors to 256 bits, multiplies, divides by `10^18` rounding
/// towards zero, and gives up when the quotient leaves `(-2^191, 2^191)`.
#[verifier::external_body]
pub(crate) fn checked_mul(a: Decimal, b: Decimal) -> (r: Option<Decimal>)
    ensures
        r.is_some() == is_produced(mul_fixed(a@, b@)),
        r matches Some(c) ==> c@ == mul_fixed(a@, b@),
{
    let x = scrypto::math::Decimal::from_attos(I192::from_digits([a.lo, a.mid, a.hi]));
    let y = scrypto::math::Decimal::from_attos(I192::from_digits([b.lo, b.mid, b.hi]));
    x.checked_mul(y).map(|z| Decimal::from_digits(z.attos().to_digits()))
}

/// Divides through `scrypto::math::Decimal::checked_div`. That function
/// widens both operands to 256 bits, multiplies the dividend by `10^18`,
/// divides rounding towards zero, and gives up when the divisor is zero or
/// the quotient leaves `(-2^191, 2^191)`.
#[verifier::external_body]
pub(crate) fn checked_div(a: Decimal, b: Decimal) -> (r: Option<Decimal>)
    ensures
        r.is_some() == (b@ != 0 && is_produced(div_fixed(a@, b@))),
        r matches Some(c) ==> c@ == div_fixed(a@, b@),
{
    let x = scrypto::math::Decimal::from_attos(I192::from_digits([a.lo, a.mid, a.hi]));
    let y = scrypto::math::Decimal::from_attos(I192::from_digits([b.lo, b.mid, b.hi]));
    x.checked_div(y).map(|z| Decimal::from_digits(z.attos().to_digits()))
}

/// Adds through `scrypto::math::Decimal::checked_add`, which adds the two
/// 192-bit integers and gives up when the sum leaves `[-2^191, 2^191)`.
#[verifier::external_body]
pub(crate) fn checked_add(a: Decimal, b: Decimal) -> (r: Option<Decimal>)
    ensures
        r.is_some() == is_held(a@ + b@),
        r matches Some(c) ==> c@ == a@ + b@,
{
    let x = scrypto::math::Decimal::from_attos(I192::from_digits([a.lo, a.mid, a.hi]));
    let y = scrypto::math::Decimal::from_attos(I192::from_digits([b.lo, b.mid, b.hi]));
    x.checked_add(y).map(|z| Decimal::from_digits(z.attos().to_digits()))
}

/// Subtracts through `scrypto::math::Decimal::checked_sub`, which subtracts
/// the two 192-bit integers and gives up when the difference leaves
/// `[-2^191, 2^191)`.
#[verifier::external_body]
pub(crate) fn checked_sub(a: Decimal, b: Decimal) -> (r: Option<Decimal>)
    ensures
        r.is_some() == is_held(a@ - b@),
        r matches Some(c) ==> c@ == a@ - b@,
{
    let x = scrypto::math::Decimal::from_attos(I192::from_digits([a.lo, a.mid, a.hi]));
    let y = scrypto::math::Decimal::from_attos(I192::from_digits([b.lo, b.mid, b.hi]));
    x.checked_sub(y).map(|z| Decimal::from_digits(z.attos().to_digits()))
}

} // verus!
