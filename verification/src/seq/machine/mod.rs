//! The abstract machine: what the intermediate form means.
//!
//! There is no stack of frames and no notion of "the current registers" beyond a single
//! ordered list of values. Every transition rebuilds it:
//!
//! ```text
//!   substitute [x, y]   env := [lookup x, lookup y]      (and nothing else)
//!   jump L              env unchanged, renamed by L's parameters
//!   let x = K(a, b)     env := K(a, b) :: env
//!   switch x            env := fields(x) ++ env
//!   new f {…}           env := f :: env
//!   invoke f#i          env := captures(f) ++ (env without f)
//!   extern p(…)         env := result :: env    (a branch leaves env alone)
//! ```
//!
//! A block's parameters name *the entire environment* on entry, not just what is new, so
//! every transition checks that the length matches.

pub mod compact;
pub mod elems;
pub mod equal;
pub mod fed_alike;
pub mod hash;
pub mod laws;
pub mod record_laws;
pub mod norm;
pub mod ops;
pub mod prim;
pub mod run;
pub mod run_prim;
pub mod show;
pub mod shown;
pub mod state;
pub mod step;
pub mod text;
pub mod trans;
pub mod value;
