//! Plugin hosting: the bookkeeping of the per-plugin instance pool.
use vstd::prelude::*;

pub mod pool;

verus! {
} // verus!
