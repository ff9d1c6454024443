//! Floats, as their bits: what can be said of one without arithmetic.

use vstd::prelude::*;

verus! {

/// The bits of a float without its sign.
pub open spec fn magnitude(b: u64) -> u64 {
    b & 0x7fff_ffff_ffff_ffff
}

/// Not a number.
pub open spec fn nan(b: u64) -> bool {
    magnitude(b) > 0x7ff0_0000_0000_0000
}

/// Neither infinite nor not a number.
pub open spec fn finite(b: u64) -> bool {
    magnitude(b) < 0x7ff0_0000_0000_0000
}

/// Where a float that is a number stands among the others: both zeroes in one place.
pub open spec fn rank(b: u64) -> int {
    if b >= 0x8000_0000_0000_0000 {
        -(magnitude(b) as int)
    } else {
        magnitude(b) as int
    }
}

/// `a < b`, of floats.
pub open spec fn below(a: u64, b: u64) -> bool {
    !nan(a) && !nan(b) && rank(a) < rank(b)
}

/// `a == b`, of floats.
pub open spec fn alike(a: u64, b: u64) -> bool {
    !nan(a) && !nan(b) && rank(a) == rank(b)
}

/// `a == b`, of floats of 32 bits.
pub open spec fn alike32(a: u32, b: u32) -> bool {
    let (x, y) = (a & 0x7fff_ffff, b & 0x7fff_ffff);
    x <= 0x7f80_0000 && y <= 0x7f80_0000 && (a == b || (x == 0 && y == 0))
}

pub fn equal32(a: u32, b: u32) -> (r: bool)
    ensures
        r == alike32(a, b),
{
    let x: u32 = a & 0x7fff_ffff;
    let y: u32 = b & 0x7fff_ffff;
    x <= 0x7f80_0000 && y <= 0x7f80_0000 && (a == b || (x == 0 && y == 0))
}

pub fn is_nan(b: u64) -> (r: bool)
    ensures
        r == nan(b),
{
    (b & 0x7fff_ffff_ffff_ffff) > 0x7ff0_0000_0000_0000
}

pub fn is_finite(b: u64) -> (r: bool)
    ensures
        r == finite(b),
{
    (b & 0x7fff_ffff_ffff_ffff) < 0x7ff0_0000_0000_0000
}

fn place(b: u64) -> (r: i128)
    ensures
        r == rank(b),
{
    let m: i128 = (b & 0x7fff_ffff_ffff_ffff) as i128;
    if b >= 0x8000_0000_0000_0000 {
        -m
    } else {
        m
    }
}

pub fn less(a: u64, b: u64) -> (r: bool)
    ensures
        r == below(a, b),
{
    !is_nan(a) && !is_nan(b) && place(a) < place(b)
}

pub fn equal(a: u64, b: u64) -> (r: bool)
    ensures
        r == alike(a, b),
{
    !is_nan(a) && !is_nan(b) && place(a) == place(b)
}

/// Of two floats that are numbers, one is less, or they are equal; of any others,
/// neither.
pub proof fn floats_are_ordered(a: u64, b: u64)
    ensures
        nan(a) || nan(b) <==> !(below(a, b) || below(b, a) || alike(a, b)),
        !(below(a, b) && below(b, a)),
        !(below(a, b) && alike(a, b)),
{
}

} // verus!
