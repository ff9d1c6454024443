//! The reference evaluator: a machine of a control, environments and a stack of
//! what is left to do.

pub mod elems;
pub mod equal;
pub mod hex;
pub mod laws;
pub mod machine;
pub mod native;
pub mod norm;
pub mod pattern;
pub mod prim;
pub mod run;
pub mod show;
pub mod shown;
pub mod step;
pub mod term;
pub mod value;
