//! Core terms to the sequent intermediate representation.
//!
//! A value is returned by invoking a continuation. A continuation is codata with a
//! single method, and so is a function, with one method taking an argument, the
//! continuation to answer with, and the evidence: the handlers installed where it
//! was called.
//!
//! A block's parameters name the whole environment, in order, so everything here is
//! handed the environment as it stands and says what it leaves.

pub mod arms;
pub mod bring_parts;
pub mod bring;
pub mod bring_arms;
pub mod bring_chain;
pub mod bring_guard;
pub mod bring_tree;
pub mod bring_handle;
pub mod bring_labels;
pub mod bring_program;
pub mod case;
pub mod chain;
pub mod control;
pub mod direct;
pub mod effect;
pub mod emit;
pub mod expr;
pub mod follow;
pub mod follow_arms;
pub mod follow_chain;
pub mod follow_guard;
pub mod follow_handle;
pub mod follow_program;
pub mod follow_tree;
pub mod frame;
pub mod going_parts;
pub mod going;
pub mod going_arms;
pub mod going_chain;
pub mod going_guard;
pub mod going_tree;
pub mod going_handle;
pub mod guard;
pub mod handle;
pub mod have;
pub mod live;
pub mod mean;
pub mod mean_direct;
pub mod mean_laws;
pub mod mean_place;
pub mod mean_quiet;
pub mod mean_run;
pub mod pattern;
pub mod prefix;
pub mod program;
pub mod reach;
pub mod reach_state;
pub mod rooted;
pub mod scan;
pub mod scheme;
pub mod shape;
pub mod state;
pub mod stride;
pub mod supply;
pub mod survey;
pub mod tree;
pub mod types;
pub mod value;
pub mod went;
pub mod whole;
