//! Helpers shared by the rest of the crate.

pub mod utils;
