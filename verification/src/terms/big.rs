//! Integers of any size, as the bytes of their two's complement, lowest first.

use crate::text::signed;
use num_bigint::BigInt;
use num_traits::{ToPrimitive, Zero};
use vstd::arithmetic::power::pow;
use vstd::prelude::*;

verus! {

/// What bytes are worth without a sign, lowest first.
pub open spec fn unsigned_of(b: Seq<u8>) -> nat
    decreases b.len(),
{
    if b.len() == 0 {
        0
    } else {
        b[0] as nat + 256 * unsigned_of(b.skip(1))
    }
}

/// What bytes are worth in two's complement, lowest first.
pub open spec fn int_of(b: Seq<u8>) -> int {
    if b.len() > 0 && b.last() >= 128 {
        unsigned_of(b) - pow(256, b.len())
    } else {
        unsigned_of(b) as int
    }
}

/// The size of a number, without its sign.
pub open spec fn size_of(a: int) -> int {
    if a < 0 {
        -a
    } else {
        a
    }
}

/// Division that rounds towards zero.
pub open spec fn quotient(a: int, b: int) -> int {
    if (a < 0) == (b < 0) {
        size_of(a) / size_of(b)
    } else {
        -(size_of(a) / size_of(b))
    }
}

/// What [`quotient`] leaves, which has the sign of `a`.
pub open spec fn remainder(a: int, b: int) -> int {
    a - b * quotient(a, b)
}

/// `BigInt::from(i64)`: the same number.
#[verifier::external_body]
pub(crate) fn from_i64(n: i64) -> (r: Vec<u8>)
    ensures
        int_of(r@) == n,
{
    BigInt::from(n).to_signed_bytes_le()
}

/// `BigInt::from(i128)`: the same number.
#[verifier::external_body]
pub(crate) fn from_i128(n: i128) -> (r: Vec<u8>)
    ensures
        int_of(r@) == n,
{
    BigInt::from(n).to_signed_bytes_le()
}

/// `BigInt`'s `+`: the sum.
#[verifier::external_body]
pub(crate) fn plus(a: &[u8], b: &[u8]) -> (r: Vec<u8>)
    ensures
        int_of(r@) == int_of(a@) + int_of(b@),
{
    (BigInt::from_signed_bytes_le(a) + BigInt::from_signed_bytes_le(b)).to_signed_bytes_le()
}

/// `BigInt`'s `-`: the difference.
#[verifier::external_body]
pub(crate) fn minus(a: &[u8], b: &[u8]) -> (r: Vec<u8>)
    ensures
        int_of(r@) == int_of(a@) - int_of(b@),
{
    (BigInt::from_signed_bytes_le(a) - BigInt::from_signed_bytes_le(b)).to_signed_bytes_le()
}

/// `BigInt`'s `*`: the product.
#[verifier::external_body]
pub(crate) fn times(a: &[u8], b: &[u8]) -> (r: Vec<u8>)
    ensures
        int_of(r@) == int_of(a@) * int_of(b@),
{
    (BigInt::from_signed_bytes_le(a) * BigInt::from_signed_bytes_le(b)).to_signed_bytes_le()
}

/// `BigInt`'s `/`: the quotient, rounded towards zero. It panics for a divisor of zero.
#[verifier::external_body]
pub(crate) fn over(a: &[u8], b: &[u8]) -> (r: Vec<u8>)
    requires
        int_of(b@) != 0,
    ensures
        int_of(r@) == quotient(int_of(a@), int_of(b@)),
{
    (BigInt::from_signed_bytes_le(a) / BigInt::from_signed_bytes_le(b)).to_signed_bytes_le()
}

/// `BigInt`'s `%`: what `/` leaves. It panics for a divisor of zero.
#[verifier::external_body]
pub(crate) fn modulo(a: &[u8], b: &[u8]) -> (r: Vec<u8>)
    requires
        int_of(b@) != 0,
    ensures
        int_of(r@) == remainder(int_of(a@), int_of(b@)),
{
    (BigInt::from_signed_bytes_le(a) % BigInt::from_signed_bytes_le(b)).to_signed_bytes_le()
}

/// `BigInt::pow`: the power.
#[verifier::external_body]
pub(crate) fn power(a: &[u8], e: u32) -> (r: Vec<u8>)
    ensures
        int_of(r@) == pow(int_of(a@), e as nat),
{
    BigInt::from_signed_bytes_le(a).pow(e).to_signed_bytes_le()
}

/// `BigInt`'s `<`: whether one number is less than another.
#[verifier::external_body]
pub(crate) fn less(a: &[u8], b: &[u8]) -> (r: bool)
    ensures
        r == (int_of(a@) < int_of(b@)),
{
    BigInt::from_signed_bytes_le(a) < BigInt::from_signed_bytes_le(b)
}

/// `BigInt`'s `==`: whether two numbers are equal.
#[verifier::external_body]
pub(crate) fn equal(a: &[u8], b: &[u8]) -> (r: bool)
    ensures
        r == (int_of(a@) == int_of(b@)),
{
    BigInt::from_signed_bytes_le(a) == BigInt::from_signed_bytes_le(b)
}

/// `Zero::is_zero`: whether a number is zero.
#[verifier::external_body]
pub(crate) fn is_zero(a: &[u8]) -> (r: bool)
    ensures
        r == (int_of(a@) == 0),
{
    BigInt::from_signed_bytes_le(a).is_zero()
}

/// `ToPrimitive::to_i64`: the number, where it fits.
#[verifier::external_body]
pub(crate) fn to_i64(a: &[u8]) -> (r: Option<i64>)
    ensures
        r == (if i64::MIN <= int_of(a@) <= i64::MAX {
            Some(int_of(a@) as i64)
        } else {
            None
        }),
{
    BigInt::from_signed_bytes_le(a).to_i64()
}

/// `ToPrimitive::to_u32`: the number, where it fits.
#[verifier::external_body]
pub(crate) fn to_u32(a: &[u8]) -> (r: Option<u32>)
    ensures
        r == (if 0 <= int_of(a@) <= u32::MAX {
            Some(int_of(a@) as u32)
        } else {
            None
        }),
{
    BigInt::from_signed_bytes_le(a).to_u32()
}

/// `BigInt`'s `Display`: the number in base ten.
#[verifier::external_body]
pub(crate) fn written(a: &[u8]) -> (r: String)
    ensures
        r@ == signed(int_of(a@)),
{
    BigInt::from_signed_bytes_le(a).to_string()
}

} // verus!
