//! Local-first build orchestration: the dependency graph of a rendered
//! pipeline and its partition into lineage chains.
use vstd::prelude::*;

pub mod graph;
pub mod cycle;
pub mod dep_set;

verus! {
} // verus!
