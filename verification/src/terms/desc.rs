//! Descriptors: what a value's bits are, in four bits.

use vstd::prelude::*;

verus! {

/// How a value is represented.
pub type Desc = u8;

/// The address of an object.
pub const REF: Desc = 0;

pub const INT: Desc = 1;

pub const FLOAT: Desc = 2;

pub const BOOL: Desc = 3;

pub const CHAR: Desc = 4;

pub const UNIT: Desc = 5;

/// An interned string.
pub const STR: Desc = 6;

pub const INT8: Desc = 7;

pub const INT16: Desc = 8;

pub const INT32: Desc = 9;

pub const UINT8: Desc = 10;

pub const UINT16: Desc = 11;

pub const UINT32: Desc = 12;

pub const UINT64: Desc = 13;

pub const FLOAT32: Desc = 14;

/// A value whose representation is not known.
pub const ANY: Desc = 15;

} // verus!
