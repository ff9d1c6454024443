//! What native code is made of a program.

pub mod a64;
pub mod arm;
pub mod arm_laws;
pub mod arm_ops;
pub mod calls;
pub mod code;
pub mod finish;
pub mod fits;
pub mod loops;
pub mod thin;
pub mod vector;
pub mod vector_laws;
