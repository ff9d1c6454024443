//! The toolchain's installer: where things go, how a release is named, and how
//! the `bin` directory joins the `PATH`.
//!
//! Everything here is about *getting Meadow onto a machine*, and is stated over
//! plain text: a path is its text, and which system it is for is an argument.

pub mod args;
pub mod names;
pub mod profile;
pub mod registry;
pub mod release;
pub mod ui;
