//! What `hm version` reports.
use vstd::prelude::*;
use crate::text::{decimal, decimal_string};

verus! {

/// The version report: the hm version, the plugin API version and the
/// number of loaded plugins, one per line.
pub fn version_report(hm_version: &str, api_version: u32, plugins_loaded: usize) -> (lines: Vec<String>)
    ensures
        lines@.len() == 3,
        lines@[0]@ == "hm "@ + hm_version@,
        lines@[1]@ == "plugin api version: "@ + decimal(api_version as nat),
        lines@[2]@ == "plugins loaded: "@ + decimal(plugins_loaded as nat),
{
    let mut lines: Vec<String> = Vec::new();
    lines.push(String::from_str("hm ").concat(hm_version));
    lines.push(String::from_str("plugin api version: ").concat(decimal_string(api_version as u64).as_str()));
    lines.push(String::from_str("plugins loaded: ").concat(decimal_string(plugins_loaded as u64).as_str()));
    lines
}

} // verus!
