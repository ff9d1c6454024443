//! The core language: terms, patterns, types and the primitives they call.

pub mod big;
pub mod desc;
pub mod float;
pub mod prim;
pub mod symbol;
pub mod term;
pub mod ty;
pub mod worth;
