//! A small functional language: its sequent-calculus intermediate form, the
//! machines that run it, its code generator's planning, its collector's
//! bookkeeping and its installer's rules.

pub mod eval;
pub mod glade;
pub mod installer;
pub mod scc;
pub mod seq;
pub mod span;
pub mod terms;
pub mod text;
