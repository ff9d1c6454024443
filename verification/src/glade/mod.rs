//! The runtime: how objects are laid out, what the collector decides, and what
//! the code generator plans.

pub mod codegen;
pub mod mark;
pub mod native;
pub mod object;
pub mod pauses;
pub mod request;
pub mod tells;
