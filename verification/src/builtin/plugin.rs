//! What `hm plugin {list, info, remove}` compute: capability summaries,
//! the listing table, manifest lookup and the installed file name.
use vstd::prelude::*;
use crate::protocol::{Capability, PluginManifest};
use crate::text::{pad_end, pad_start, pad_end_string, pad_start_string, joined, join_strings};

verus! {

/// The short form of a capability in the listing.
pub open spec fn capability_text(cap: Capability) -> Seq<char> {
    match cap {
        Capability::Subcommand(s) => "subcmd:"@ + s.verb@,
        Capability::StepExecutor(s) => if s.default {
            "runner:"@ + s.runner@ + "(*)"@
        } else {
            "runner:"@ + s.runner@
        },
        Capability::LifecycleHook(_) => "hook"@,
        Capability::OutputFormatter(s) => "format:"@ + s.name@,
    }
}

/// The short form of a capability: `subcmd:<verb>`, `runner:<runner>`
/// (with `(*)` for the default executor), `hook`, or `format:<name>`.
pub fn capability_summary(cap: &Capability) -> (s: String)
    ensures
        s@ == capability_text(*cap),
{
    match cap {
        Capability::Subcommand(s) => String::from_str("subcmd:").concat(s.verb.as_str()),
        Capability::StepExecutor(s) => {
            let r = String::from_str("runner:").concat(s.runner.as_str());
            if s.default {
                r.concat("(*)")
            } else {
                r
            }
        },
        Capability::LifecycleHook(_) => String::from_str("hook"),
        Capability::OutputFormatter(s) => String::from_str("format:").concat(s.name.as_str()),
    }
}

/// One row of the listing: name in 28 columns, version right-aligned in
/// 10, then the capabilities.
pub open spec fn table_row(name: Seq<char>, version: Seq<char>, caps: Seq<char>) -> Seq<char> {
    pad_end(name, 28) + " "@ + pad_start(version, 10) + "  "@ + caps
}

/// The listing row of a manifest.
pub open spec fn manifest_row(m: PluginManifest) -> Seq<char> {
    table_row(m.name@, m.version@, joined(m.capabilities@.map_values(|c: Capability| capability_text(c)), ", "@))
}

/// The listing of installed plugins: a header row, then one row per
/// manifest in order.
pub fn plugin_table(manifests: &Vec<PluginManifest>) -> (lines: Vec<String>)
    ensures
        lines@.len() == manifests@.len() + 1,
        lines@[0]@ == table_row("name"@, "version"@, "capabilities"@),
        forall|i: int| 0 <= i < manifests@.len() ==> (#[trigger] lines@[i + 1])@ == manifest_row(manifests@[i]),
{
    let mut lines: Vec<String> = Vec::new();
    lines.push(table_line("name", "version", "capabilities"));
    let mut i: usize = 0;
    while i < manifests.len()
        invariant
            i <= manifests@.len(),
            lines@.len() == i + 1,
            lines@[0]@ == table_row("name"@, "version"@, "capabilities"@),
            forall|j: int| 0 <= j < i ==> (#[trigger] lines@[j + 1])@ == manifest_row(manifests@[j]),
        decreases manifests@.len() - i,
    {
        let m = &manifests[i];
        let mut caps: Vec<String> = Vec::new();
        let mut k: usize = 0;
        while k < m.capabilities.len()
            invariant
                k <= m.capabilities@.len(),
                caps@.len() == k,
                forall|t: int| 0 <= t < k ==> (#[trigger] caps@[t])@ == capability_text(m.capabilities@[t]),
            decreases m.capabilities@.len() - k,
        {
            caps.push(capability_summary(&m.capabilities[k]));
            k = k + 1;
        }
        let ghost texts = m.capabilities@.map_values(|c: Capability| capability_text(c));
        assert(caps.deep_view() =~= texts);
        let joined_caps = join_strings(&caps, ", ");
        let row = table_line(m.name.as_str(), m.version.as_str(), joined_caps.as_str());
        lines.push(row);
        proof {
            assert forall|j: int| 0 <= j < i + 1 implies (#[trigger] lines@[j + 1])@ == manifest_row(manifests@[j]) by {
                if j == i {
                    assert(lines@[j + 1] == row);
                }
            }
        }
        i = i + 1;
    }
    lines
}

fn table_line(name: &str, version: &str, caps: &str) -> (s: String)
    ensures
        s@ == table_row(name@, version@, caps@),
{
    let s = pad_end_string(name, 28);
    let s = s.concat(" ");
    let s = s.concat(pad_start_string(version, 10).as_str());
    let s = s.concat("  ");
    s.concat(caps)
}

/// The help `hm plugin list` prints when no plugin is installed: where
/// plugins are looked up (`plugin_dirs`, one per line, indented) and how to
/// install one.
pub fn no_plugins_help(plugin_dirs: &Vec<String>) -> (lines: Vec<String>)
    ensures
        lines@.len() == plugin_dirs@.len() + 5,
        lines@[0]@ == "No plugins installed."@,
        lines@[1]@ == Seq::<char>::empty(),
        lines@[2]@ == "Plugins live in:"@,
        forall|i: int| 0 <= i < plugin_dirs@.len() ==> (#[trigger] lines@[i + 3])@ == "  "@ + plugin_dirs@[i]@,
        lines@[lines@.len() - 2]@ == Seq::<char>::empty(),
        lines@[lines@.len() - 1]@ == "Install one with `hm plugin install <path-or-url>`."@,
{
    let mut lines: Vec<String> = Vec::new();
    lines.push(String::from_str("No plugins installed."));
    lines.push(String::new());
    lines.push(String::from_str("Plugins live in:"));
    let mut i: usize = 0;
    while i < plugin_dirs.len()
        invariant
            i <= plugin_dirs@.len(),
            lines@.len() == i + 3,
            lines@[0]@ == "No plugins installed."@,
            lines@[1]@ == Seq::<char>::empty(),
            lines@[2]@ == "Plugins live in:"@,
            forall|j: int| 0 <= j < i ==> (#[trigger] lines@[j + 3])@ == "  "@ + plugin_dirs@[j]@,
        decreases plugin_dirs@.len() - i,
    {
        let line = String::from_str("  ").concat(plugin_dirs[i].as_str());
        lines.push(line);
        proof {
            assert forall|j: int| 0 <= j < i + 1 implies (#[trigger] lines@[j + 3])@ == "  "@ + plugin_dirs@[j]@ by {
                if j == i {
                    assert(lines@[j + 3] == line);
                }
            }
        }
        i = i + 1;
    }
    lines.push(String::new());
    lines.push(String::from_str("Install one with `hm plugin install <path-or-url>`."));
    lines
}

/// What `hm plugin list` prints: the table of installed plugins, or the
/// help when there is none.
pub fn plugin_listing(manifests: &Vec<PluginManifest>, plugin_dirs: &Vec<String>) -> (lines: Vec<String>)
    ensures
        manifests@.len() == 0 ==> {
            &&& lines@.len() == plugin_dirs@.len() + 5
            &&& lines@[0]@ == "No plugins installed."@
            &&& lines@[1]@ == Seq::<char>::empty()
            &&& lines@[2]@ == "Plugins live in:"@
            &&& forall|i: int| 0 <= i < plugin_dirs@.len() ==> (#[trigger] lines@[i + 3])@ == "  "@ + plugin_dirs@[i]@
            &&& lines@[lines@.len() - 2]@ == Seq::<char>::empty()
            &&& lines@[lines@.len() - 1]@ == "Install one with `hm plugin install <path-or-url>`."@
        },
        manifests@.len() > 0 ==> {
            &&& lines@.len() == manifests@.len() + 1
            &&& lines@[0]@ == table_row("name"@, "version"@, "capabilities"@)
            &&& forall|i: int| 0 <= i < manifests@.len() ==> (#[trigger] lines@[i + 1])@ == manifest_row(manifests@[i])
        },
{
    if manifests.len() == 0 {
        no_plugins_help(plugin_dirs)
    } else {
        plugin_table(manifests)
    }
}

/// Position of the first manifest named `name`.
pub fn find_manifest(manifests: &Vec<PluginManifest>, name: &str) -> (r: Option<usize>)
    ensures
        match r {
            Some(i) => i < manifests@.len() && manifests@[i as int].name@ == name@
                && forall|j: int| 0 <= j < i ==> (#[trigger] manifests@[j]).name@ != name@,
            None => forall|j: int| 0 <= j < manifests@.len() ==> (#[trigger] manifests@[j]).name@ != name@,
        },
{
    let mut i: usize = 0;
    while i < manifests.len()
        invariant
            i <= manifests@.len(),
            forall|j: int| 0 <= j < i ==> (#[trigger] manifests@[j]).name@ != name@,
        decreases manifests@.len() - i,
    {
        if crate::protocol::str_eq(manifests[i].name.as_str(), name) {
            return Some(i);
        }
        i = i + 1;
    }
    None
}

/// The message for `hm plugin info` of a plugin that is not installed.
pub fn no_such_plugin_message(name: &str) -> (s: String)
    ensures
        s@ == "no plugin named '"@ + name@ + "' is installed"@,
{
    String::from_str("no plugin named '").concat(name).concat("' is installed")
}

/// The file name an installed plugin is kept under.
pub fn plugin_file_name(name: &str) -> (s: String)
    ensures
        s@ == name@ + ".wasm"@,
{
    String::from_str(name).concat(".wasm")
}

} // verus!
