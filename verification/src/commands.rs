//! Command handlers: what they decide, apart from the I/O around it.
use vstd::prelude::*;

pub mod run;

verus! {
} // verus!
