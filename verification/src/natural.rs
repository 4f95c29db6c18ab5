use num::BigUint;
use vstd::prelude::*;

verus! {

/// The value of little-endian base-256 digits.
pub open spec fn le_value(s: Seq<u8>) -> nat
    decreases s.len(),
{
    if s.len() == 0 {
        0
    } else {
        s[0] as nat + 256 * le_value(s.drop_first())
    }
}

/// An arbitrary-size natural number, held as its little-endian bytes.
pub struct Natural {
    bytes: Vec<u8>,
}

impl View for Natural {
    type V = nat;

    closed spec fn view(&self) -> nat {
        le_value(self.bytes@)
    }
}

impl Natural {
    /// Zero.
    pub fn zero() -> (r: Natural)
        ensures
            r@ == 0,
    {
        Natural { bytes: Vec::new() }
    }

    /// One.
    pub fn one() -> (r: Natural)
        ensures
            r@ == 1,
    {
        let mut bytes: Vec<u8> = Vec::new();
        bytes.push(1);
        proof {
            assert(bytes@.drop_first() =~= Seq::<u8>::empty());
            assert(le_value(bytes@.drop_first()) == 0);
            assert(le_value(bytes@) == 1);
        }
        Natural { bytes }
    }

    /// The same number.
    pub fn duplicate(&self) -> (r: Natural)
        ensures
            r@ == self@,
    {
        Natural { bytes: self.bytes.clone() }
    }

    /// The number `n`.
    pub fn from_u64(n: u64) -> (r: Natural)
        ensures
            r@ == n,
    {
        Natural { bytes: u64_bytes(n) }
    }

    /// The sum.
    pub fn plus(&self, other: &Natural) -> (r: Natural)
        ensures
            r@ == self@ + other@,
    {
        Natural { bytes: bytes_add(&self.bytes, &other.bytes) }
    }

    /// The product.
    pub fn times(&self, other: &Natural) -> (r: Natural)
        ensures
            r@ == self@ * other@,
    {
        Natural { bytes: bytes_mul(&self.bytes, &other.bytes) }
    }

    /// The difference; `other` may not exceed `self`.
    pub fn minus(&self, other: &Natural) -> (r: Natural)
        requires
            other@ <= self@,
        ensures
            r@ == self@ - other@,
    {
        Natural { bytes: bytes_sub(&self.bytes, &other.bytes) }
    }

    /// Whether the numbers are equal.
    pub fn same(&self, other: &Natural) -> (r: bool)
        ensures
            r == (self@ == other@),
    {
        bytes_eq(&self.bytes, &other.bytes)
    }

    /// Whether `self` is the smaller number.
    pub fn less(&self, other: &Natural) -> (r: bool)
        ensures
            r == (self@ < other@),
    {
        bytes_less(&self.bytes, &other.bytes)
    }

    /// Whether the number is zero.
    pub fn is_zero(&self) -> (r: bool)
        ensures
            r == (self@ == 0),
    {
        let z = Natural::zero();
        self.same(&z)
    }

    /// The larger of two numbers.
    pub fn max(self, other: Natural) -> (r: Natural)
        ensures
            r@ == if self@ < other@ { other@ } else { self@ },
    {
        if self.less(&other) {
            other
        } else {
            self
        }
    }

    /// The little-endian bytes.
    pub fn to_bytes(&self) -> (r: Vec<u8>)
        ensures
            le_value(r@) == self@,
    {
        self.bytes.clone()
    }

    /// The number whose little-endian bytes are `bytes`.
    pub fn from_bytes(bytes: Vec<u8>) -> (r: Natural)
        ensures
            r@ == le_value(bytes@),
    {
        Natural { bytes }
    }
}

/// `BigUint::from(u64)` then `BigUint::to_bytes_le`.
#[verifier::external_body]
fn u64_bytes(n: u64) -> (r: Vec<u8>)
    ensures
        le_value(r@) == n,
{
    BigUint::from(n).to_bytes_le()
}

/// `BigUint + BigUint`, from and to little-endian bytes.
#[verifier::external_body]
fn bytes_add(a: &Vec<u8>, b: &Vec<u8>) -> (r: Vec<u8>)
    ensures
        le_value(r@) == le_value(a@) + le_value(b@),
{
    (BigUint::from_bytes_le(a) + BigUint::from_bytes_le(b)).to_bytes_le()
}

/// `BigUint * BigUint`, from and to little-endian bytes.
#[verifier::external_body]
fn bytes_mul(a: &Vec<u8>, b: &Vec<u8>) -> (r: Vec<u8>)
    ensures
        le_value(r@) == le_value(a@) * le_value(b@),
{
    (BigUint::from_bytes_le(a) * BigUint::from_bytes_le(b)).to_bytes_le()
}

/// `BigUint - BigUint`, from and to little-endian bytes; it panics below zero.
#[verifier::external_body]
fn bytes_sub(a: &Vec<u8>, b: &Vec<u8>) -> (r: Vec<u8>)
    requires
        le_value(b@) <= le_value(a@),
    ensures
        le_value(r@) == le_value(a@) - le_value(b@),
{
    (BigUint::from_bytes_le(a) - BigUint::from_bytes_le(b)).to_bytes_le()
}

/// `BigUint == BigUint`, on little-endian bytes.
#[verifier::external_body]
fn bytes_eq(a: &Vec<u8>, b: &Vec<u8>) -> (r: bool)
    ensures
        r == (le_value(a@) == le_value(b@)),
{
    BigUint::from_bytes_le(a) == BigUint::from_bytes_le(b)
}

/// `BigUint < BigUint`, on little-endian bytes.
#[verifier::external_body]
fn bytes_less(a: &Vec<u8>, b: &Vec<u8>) -> (r: bool)
    ensures
        r == (le_value(a@) < le_value(b@)),
{
    BigUint::from_bytes_le(a) < BigUint::from_bytes_le(b)
}

} // verus!
