//! Built-in subcommands: plugin listing and version report.
use vstd::prelude::*;

pub mod plugin;
pub mod version;

verus! {
} // verus!
