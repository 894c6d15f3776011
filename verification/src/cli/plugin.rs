//! The runner-listing `plugin` subcommand.
use vstd::prelude::*;

verus! {

/// Subcommands of the runner listing.
#[derive(Debug)]
pub enum PluginCommand {
    /// List registered runners.
    List,
}

} // verus!
