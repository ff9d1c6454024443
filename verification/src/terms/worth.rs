//! What a number of any kind is worth.

use super::big::{self, int_of};
use vstd::arithmetic::power::pow;
use vstd::prelude::*;

verus! {

/// What a number is worth: a finite one exactly, in units of the smallest float there
/// is, of which there are two to the 1074th in one.
pub enum Worth {
    Finite(int),
    /// Below everything, or above.
    Infinite(bool),
    Nan,
}

/// [`Worth`], kept as the bytes of its two's complement.
pub enum Weighed {
    Finite(Vec<u8>),
    Infinite(bool),
    Nan,
}

impl Weighed {
    pub open spec fn worth(self) -> Worth {
        match self {
            Weighed::Finite(b) => Worth::Finite(int_of(b@)),
            Weighed::Infinite(below) => Worth::Infinite(below),
            Weighed::Nan => Worth::Nan,
        }
    }
}

/// `m`, shifted `by`, with its sign.
pub open spec fn shifted(negative: bool, m: int, by: nat) -> int {
    if negative {
        -(m * pow(2, by))
    } else {
        m * pow(2, by)
    }
}

/// What an integer is worth.
pub open spec fn of_int(n: int) -> Worth {
    Worth::Finite(shifted(false, n, 1074))
}

/// What a float is worth, from its sign, its exponent and its fraction.
pub open spec fn of_float(b: u64) -> Worth {
    let negative = (b >> 63) & 1 == 1;
    let e = (b >> 52) & 0x7ff;
    let m = b & 0xf_ffff_ffff_ffff;
    if e == 0x7ff {
        if m == 0 {
            Worth::Infinite(negative)
        } else {
            Worth::Nan
        }
    } else if e == 0 {
        Worth::Finite(shifted(negative, m as int, 0))
    } else {
        Worth::Finite(shifted(negative, m + 0x10_0000_0000_0000, (e - 1) as nat))
    }
}

/// What a float of 32 bits is worth.
pub open spec fn of_float32(b: u32) -> Worth {
    let negative = (b >> 31) & 1 == 1;
    let e = (b >> 23) & 0xff;
    let m = b & 0x7f_ffff;
    if e == 0xff {
        if m == 0 {
            Worth::Infinite(negative)
        } else {
            Worth::Nan
        }
    } else if e == 0 {
        Worth::Finite(shifted(negative, m as int, 925))
    } else {
        Worth::Finite(shifted(negative, m + 0x80_0000, (e + 924) as nat))
    }
}

/// Two numbers are worth the same. What is not a number is worth nothing.
pub open spec fn level(a: Worth, b: Worth) -> bool {
    match (a, b) {
        (Worth::Finite(x), Worth::Finite(y)) => x == y,
        (Worth::Infinite(x), Worth::Infinite(y)) => x == y,
        _ => false,
    }
}

fn shift(negative: bool, m: &[u8], by: u32) -> (r: Vec<u8>)
    ensures
        int_of(r@) == shifted(negative, int_of(m@), by as nat),
{
    let two: Vec<u8> = big::from_i64(2);
    let p: Vec<u8> = big::power(two.as_slice(), by);
    let v: Vec<u8> = big::times(m, p.as_slice());
    if negative {
        let zero: Vec<u8> = big::from_i64(0);
        big::minus(zero.as_slice(), v.as_slice())
    } else {
        v
    }
}

pub fn weigh_int(n: &[u8]) -> (r: Weighed)
    ensures
        r.worth() == of_int(int_of(n@)),
{
    Weighed::Finite(shift(false, n, 1074))
}

pub fn weigh_float(b: u64) -> (r: Weighed)
    ensures
        r.worth() == of_float(b),
{
    let negative: bool = (b >> 63) & 1 == 1;
    let e: u64 = (b >> 52) & 0x7ff;
    let m: u64 = b & 0xf_ffff_ffff_ffff;
    proof {
        assert(e <= 0x7ff && m <= 0xf_ffff_ffff_ffff) by (bit_vector)
            requires
                e == (b >> 52) & 0x7ff,
                m == b & 0xf_ffff_ffff_ffff,
        ;
    }
    if e == 0x7ff {
        if m == 0 {
            Weighed::Infinite(negative)
        } else {
            Weighed::Nan
        }
    } else if e == 0 {
        let x: Vec<u8> = big::from_i128(m as i128);
        Weighed::Finite(shift(negative, x.as_slice(), 0))
    } else {
        let x: Vec<u8> = big::from_i128(m as i128 + 0x10_0000_0000_0000);
        Weighed::Finite(shift(negative, x.as_slice(), (e - 1) as u32))
    }
}

pub fn weigh_float32(b: u32) -> (r: Weighed)
    ensures
        r.worth() == of_float32(b),
{
    let negative: bool = (b >> 31) & 1 == 1;
    let e: u32 = (b >> 23) & 0xff;
    let m: u32 = b & 0x7f_ffff;
    proof {
        assert(e <= 0xff && m <= 0x7f_ffff) by (bit_vector)
            requires
                e == (b >> 23) & 0xff,
                m == b & 0x7f_ffff,
        ;
    }
    if e == 0xff {
        if m == 0 {
            Weighed::Infinite(negative)
        } else {
            Weighed::Nan
        }
    } else if e == 0 {
        let x: Vec<u8> = big::from_i128(m as i128);
        Weighed::Finite(shift(negative, x.as_slice(), 925))
    } else {
        let x: Vec<u8> = big::from_i128(m as i128 + 0x80_0000);
        Weighed::Finite(shift(negative, x.as_slice(), e + 924))
    }
}

pub fn balance(a: &Weighed, b: &Weighed) -> (r: bool)
    ensures
        r == level(a.worth(), b.worth()),
{
    match (a, b) {
        (Weighed::Finite(x), Weighed::Finite(y)) => big::equal(x.as_slice(), y.as_slice()),
        (Weighed::Infinite(x), Weighed::Infinite(y)) => *x == *y,
        _ => false,
    }
}

} // verus!
