//! `hm run`: choosing the pipeline and rendering it.
use vstd::prelude::*;

pub mod local;
pub mod render;

verus! {
} // verus!
