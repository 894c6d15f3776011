//! Verified core of the `hm` command-line client: the pipeline
//! dependency graph and its lineage chains, the error taxonomy and its
//! exit codes, and the small decision rules of the command handlers.
use vstd::prelude::*;

pub mod builtin;
pub mod cli;
pub mod commands;
pub mod error;
pub mod fs_util;
pub mod orchestrator;
pub mod output;
pub mod plugin;
pub mod protocol;
pub mod text;

verus! {
} // verus!
