//! Arbitrary-precision natural numbers, held as base-2^32 digits (least
//! significant first); the arithmetic itself is done by `num_bigint`.
use num_bigint::BigUint;
use vstd::prelude::*;

verus! {

/// The number that a little-endian sequence of base-2^32 digits denotes.
pub open spec fn digits_value(d: Seq<u32>) -> nat
    decreases d.len(),
{
    if d.len() == 0 {
        0
    } else {
        d[0] as nat + 4294967296 * digits_value(d.drop_first())
    }
}

/// An unbounded natural number.
#[derive(Debug, Clone, PartialEq, Eq)]
pub struct Natural {
    pub digits: Vec<u32>,
}

impl View for Natural {
    type V = nat;

    open spec fn view(&self) -> nat {
        digits_value(self.digits@)
    }
}

/// Relies on `BigUint::add` (through `BigUint::new` and `to_u32_digits`, which
/// read and write base-2^32 digits, least significant first): the exact sum.
#[verifier::external_body]
fn big_add(a: &Natural, b: &Natural) -> (r: Natural)
    ensures
        r@ == a@ + b@,
{
    let s = BigUint::new(a.digits.clone()) + BigUint::new(b.digits.clone());
    Natural { digits: s.to_u32_digits() }
}

/// Relies on `BigUint::sub`: the exact difference; it panics when `b > a`.
#[verifier::external_body]
fn big_sub(a: &Natural, b: &Natural) -> (r: Natural)
    requires
        b@ <= a@,
    ensures
        r@ == a@ - b@,
{
    let s = BigUint::new(a.digits.clone()) - BigUint::new(b.digits.clone());
    Natural { digits: s.to_u32_digits() }
}

/// Relies on `BigUint`'s `Mul<u64>`: the exact product.
#[verifier::external_body]
fn big_mul_u64(a: &Natural, m: u64) -> (r: Natural)
    ensures
        r@ == a@ * m,
{
    let s = BigUint::new(a.digits.clone()) * m;
    Natural { digits: s.to_u32_digits() }
}

/// Relies on `BigUint`'s `Div<u64>`: the quotient rounded down; it panics on zero.
#[verifier::external_body]
fn big_div_u64(a: &Natural, d: u64) -> (r: Natural)
    requires
        d > 0,
    ensures
        r@ == a@ / (d as nat),
{
    let s = BigUint::new(a.digits.clone()) / d;
    Natural { digits: s.to_u32_digits() }
}

/// Relies on `BigUint`'s `PartialOrd::lt`: numeric order.
#[verifier::external_body]
fn big_lt(a: &Natural, b: &Natural) -> (r: bool)
    ensures
        r == (a@ < b@),
{
    BigUint::new(a.digits.clone()) < BigUint::new(b.digits.clone())
}

impl Natural {
    /// Zero.
    pub fn zero() -> (r: Natural)
        ensures
            r@ == 0,
    {
        Natural { digits: Vec::new() }
    }

    /// A number of at most 64 bits.
    pub fn from_u64(v: u64) -> (r: Natural)
        ensures
            r@ == v as nat,
    {
        let lo: u32 = (v % 4294967296) as u32;
        let hi: u32 = (v / 4294967296) as u32;
        let mut digits: Vec<u32> = Vec::new();
        if hi != 0 {
            digits.push(lo);
            digits.push(hi);
        } else if lo != 0 {
            digits.push(lo);
        }
        proof {
            reveal_with_fuel(digits_value, 3);
            assert(digits@.len() >= 1 ==> digits@.drop_first() =~= digits@.subrange(1, digits@.len() as int));
            if hi != 0 {
                assert(digits@.drop_first().drop_first() =~= Seq::<u32>::empty());
            } else if lo != 0 {
                assert(digits@.drop_first() =~= Seq::<u32>::empty());
            }
        }
        Natural { digits }
    }

    /// An equal copy.
    pub fn copy(&self) -> (r: Natural)
        ensures
            r@ == self@,
    {
        Natural { digits: self.digits.clone() }
    }

    /// `self + other`.
    pub fn plus(&self, other: &Natural) -> (r: Natural)
        ensures
            r@ == self@ + other@,
    {
        big_add(self, other)
    }

    /// `self - other`, for `other <= self`.
    pub fn minus(&self, other: &Natural) -> (r: Natural)
        requires
            other@ <= self@,
        ensures
            r@ == self@ - other@,
    {
        big_sub(self, other)
    }

    /// `self * m`.
    pub fn times_u64(&self, m: u64) -> (r: Natural)
        ensures
            r@ == self@ * m,
    {
        big_mul_u64(self, m)
    }

    /// `self / d` rounded down, for `d > 0`.
    pub fn div_u64(&self, d: u64) -> (r: Natural)
        requires
            d > 0,
        ensures
            r@ == self@ / (d as nat),
    {
        big_div_u64(self, d)
    }

    /// Whether `self < other`.
    pub fn less_than(&self, other: &Natural) -> (r: bool)
        ensures
            r == (self@ < other@),
    {
        big_lt(self, other)
    }
}

} // verus!
