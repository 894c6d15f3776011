//! Decisions of the atomic, permission-restricted file writer.
use vstd::prelude::*;
use crate::text::{decimal, decimal_string};

verus! {

/// The suffix of the sibling temp file a write goes through: unique per
/// process id.
pub fn temp_suffix(pid: u32) -> (s: String)
    ensures
        s@ == ".tmp."@ + decimal(pid as nat),
{
    String::from_str(".tmp.").concat(decimal_string(pid as u64).as_str())
}

/// Whether an existing directory's permission bits differ from the
/// requested mode, so that it must be chmod'ed.
pub fn mode_differs(current: u32, mode: u32) -> (b: bool)
    ensures
        b == ((current & 0o777u32) != mode),
{
    (current & 0o777u32) != mode
}

} // verus!
