//! The sequent intermediate representation: seven statements and no expressions.

pub mod balance;
pub mod cover;
pub mod describe;
pub mod draw;
pub mod ir;
pub mod lower;
pub mod machine;
pub mod print;
pub mod settle;
pub mod table;
pub mod view;
