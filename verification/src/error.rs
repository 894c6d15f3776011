//! Error categories and the CLI exit codes they map to.
use vstd::prelude::*;
use crate::text::{decimal, decimal_string};
use vstd::string::to_string_from_display_ensures;

verus! {

/// Exit code of a successful run.
pub const EXIT_SUCCESS: i32 = 0;
/// Exit code of a failed build (and of any uncategorised failure).
pub const EXIT_BUILD_FAILED: i32 = 1;
/// Exit code of a usage or configuration error.
pub const EXIT_USAGE: i32 = 2;
/// Exit code of an authentication or authorisation error.
pub const EXIT_AUTH: i32 = 3;
/// Exit code of a network or daemon-reachability error.
pub const EXIT_NETWORK: i32 = 4;
/// Exit code of a server-side API error.
pub const EXIT_API: i32 = 5;
/// Exit code of a plugin load or validation failure; shares its value
/// with `EXIT_API`.
pub const EXIT_PLUGIN_LOAD: i32 = 5;
/// Exit code of a plugin runtime failure (panic or timeout).
pub const EXIT_PLUGIN_RUNTIME: i32 = 6;
/// Exit code of a pipeline-level invalid configuration.
pub const EXIT_PIPELINE_INVALID: i32 = 7;

/// Coarse error category; each one maps to a single exit code.
#[derive(Debug, Clone, Copy, PartialEq, Eq, Structural)]
pub enum ErrorCategory {
    /// Generic failure, exit 1.
    BuildFailed,
    /// Usage / configuration error, exit 2.
    Usage,
    /// Authentication / authorisation error, exit 3.
    Auth,
    /// Network or daemon-reachability error, exit 4.
    Network,
    /// Server- or evaluator-side API error, exit 5.
    Api,
    /// Plugin load/manifest/conflict failure, exit 5.
    PluginLoad,
    /// Plugin runtime failure, exit 6.
    PluginRuntime,
    /// Pipeline-level invalid configuration, exit 7.
    PipelineInvalid,
}

/// The exit code of each category.
pub open spec fn category_exit_code(c: ErrorCategory) -> i32 {
    match c {
        ErrorCategory::BuildFailed => EXIT_BUILD_FAILED,
        ErrorCategory::Usage => EXIT_USAGE,
        ErrorCategory::Auth => EXIT_AUTH,
        ErrorCategory::Network => EXIT_NETWORK,
        ErrorCategory::Api => EXIT_API,
        ErrorCategory::PluginLoad => EXIT_PLUGIN_LOAD,
        ErrorCategory::PluginRuntime => EXIT_PLUGIN_RUNTIME,
        ErrorCategory::PipelineInvalid => EXIT_PIPELINE_INVALID,
    }
}

impl ErrorCategory {
    /// CLI exit code for this category.
    pub fn exit_code(self) -> (code: i32)
        ensures
            code == category_exit_code(self),
    {
        match self {
            ErrorCategory::BuildFailed => EXIT_BUILD_FAILED,
            ErrorCategory::Usage => EXIT_USAGE,
            ErrorCategory::Auth => EXIT_AUTH,
            ErrorCategory::Network => EXIT_NETWORK,
            ErrorCategory::Api | ErrorCategory::PluginLoad => EXIT_API,
            ErrorCategory::PluginRuntime => EXIT_PLUGIN_RUNTIME,
            ErrorCategory::PipelineInvalid => EXIT_PIPELINE_INVALID,
        }
    }
}

} // verus!

verus! {

/// An HTTP client error, carried through opaquely.
#[verifier::external_type_specification]
#[verifier::external_body]
pub struct ExReqwestError(reqwest::Error);

/// A generic wrapped error, carried through opaquely.
#[verifier::external_type_specification]
#[verifier::external_body]
pub struct ExAnyhowError(anyhow::Error);

/// A semantic version, carried through opaquely.
#[verifier::external_type_specification]
#[verifier::external_body]
pub struct ExSemverVersion(semver::Version);

/// The errors of the CLI.
#[derive(Debug)]
pub enum HmError {
    NotAuthenticated,
    NoOrganization,
    Api { status: u16, message: String },
    Network(reqwest::Error),
    ArchiveTooLarge { max_mb: u64 },
    PipelineNotFound { slug: String },
    /// 403 with `code = pipeline_manual_disabled` when submitting a build.
    PipelineManualDisabled,
    Config(String),
    Docker(String),
    PipelineRender(String),
    LocalScheduling(String),
    PluginLoad { name: String, path: std::path::PathBuf, reason: String, doc_url: &'static str },
    PluginManifest { name: String, expected_api: u32, found_api: u32 },
    PluginMissingHostFn { name: String, fn_name: String, min_hm_version: semver::Version },
    PluginPanic { name: String, capability: String, message: String },
    PluginTimeout { name: String, capability: String, after_ms: u32 },
    PluginConflict { verb: String, plugin_a: String, plugin_b: String },
    UnknownRunner { step_key: String, runner: String, available: Vec<String> },
    NoDefaultExecutor,
    UnknownVerb { verb: String, available: Vec<String> },
    Other(anyhow::Error),
}

/// The category of each error: 401/403 API answers are authentication
/// errors, other API answers server-side ones.
pub open spec fn error_category(e: HmError) -> ErrorCategory {
    match e {
        HmError::NotAuthenticated => ErrorCategory::Auth,
        HmError::Api { status, .. } => if status == 401 || status == 403 { ErrorCategory::Auth } else { ErrorCategory::Api },
        HmError::NoOrganization | HmError::ArchiveTooLarge { .. } | HmError::Config(_) | HmError::PipelineRender(_)
        | HmError::UnknownVerb { .. } => ErrorCategory::Usage,
        HmError::PipelineNotFound { .. } | HmError::PipelineManualDisabled | HmError::LocalScheduling(_) => ErrorCategory::Api,
        HmError::Network(_) | HmError::Docker(_) => ErrorCategory::Network,
        HmError::PluginLoad { .. } | HmError::PluginManifest { .. } | HmError::PluginMissingHostFn { .. }
        | HmError::PluginConflict { .. } => ErrorCategory::PluginLoad,
        HmError::PluginPanic { .. } | HmError::PluginTimeout { .. } => ErrorCategory::PluginRuntime,
        HmError::UnknownRunner { .. } | HmError::NoDefaultExecutor => ErrorCategory::PipelineInvalid,
        HmError::Other(_) => ErrorCategory::BuildFailed,
    }
}

impl HmError {
    /// Map an error variant to its broad category.
    pub fn category(&self) -> (c: ErrorCategory)
        ensures
            c == error_category(*self),
            *self matches HmError::Api { status, .. } ==>
                c == if status == 401 || status == 403 { ErrorCategory::Auth } else { ErrorCategory::Api },
            *self is Network ==> c == ErrorCategory::Network,
    {
        match self {
            HmError::NotAuthenticated => ErrorCategory::Auth,
            HmError::Api { status, .. } if *status == 401 || *status == 403 => ErrorCategory::Auth,
            HmError::NoOrganization
            | HmError::ArchiveTooLarge { .. }
            | HmError::Config(_)
            | HmError::PipelineRender(_)
            | HmError::UnknownVerb { .. } => ErrorCategory::Usage,
            HmError::Api { .. }
            | HmError::PipelineNotFound { .. }
            | HmError::PipelineManualDisabled
            | HmError::LocalScheduling(_) => ErrorCategory::Api,
            HmError::Network(_) | HmError::Docker(_) => ErrorCategory::Network,
            HmError::PluginLoad { .. }
            | HmError::PluginManifest { .. }
            | HmError::PluginMissingHostFn { .. }
            | HmError::PluginConflict { .. } => ErrorCategory::PluginLoad,
            HmError::PluginPanic { .. } | HmError::PluginTimeout { .. } => ErrorCategory::PluginRuntime,
            HmError::UnknownRunner { .. } | HmError::NoDefaultExecutor => ErrorCategory::PipelineInvalid,
            HmError::Other(_) => ErrorCategory::BuildFailed,
        }
    }

    /// Map an error to its CLI exit code.
    pub fn exit_code(&self) -> (code: i32)
        ensures
            code == category_exit_code(error_category(*self)),
            *self matches HmError::Api { status, .. } ==> code == if status == 401 || status == 403 { 3i32 } else { 5i32 },
            *self is Network ==> code == 4,
    {
        self.category().exit_code()
    }
}

/// An API answer is an authentication failure (exit 3) exactly when its
/// status is 401 or 403, and a server-side error (exit 5) for any other
/// status; a network error is a network failure (exit 4).
pub proof fn lemma_api_and_network_exit_codes(e: HmError)
    ensures
        e matches HmError::Api { status, .. } ==> {
            &&& (error_category(e) == ErrorCategory::Auth <==> (status == 401 || status == 403))
            &&& (status != 401 && status != 403 ==> error_category(e) == ErrorCategory::Api)
            &&& category_exit_code(error_category(e)) == if status == 401 || status == 403 { 3i32 } else { 5i32 }
        },
        e is Network ==> error_category(e) == ErrorCategory::Network && category_exit_code(error_category(e)) == 4,
{
}

/// The exit code for a failure: that of its category when it is one of
/// the CLI's errors, `EXIT_BUILD_FAILED` for any other failure.
pub fn failure_exit_code(err: Option<&HmError>) -> (code: i32)
    ensures
        code == match err {
            Some(e) => category_exit_code(error_category(*e)),
            None => EXIT_BUILD_FAILED,
        },
        err matches Some(e) ==> (*e matches HmError::Api { status, .. } ==>
            code == if status == 401 || status == 403 { 3i32 } else { 5i32 }),
        err matches Some(e) ==> (*e is Network ==> code == 4),
{
    match err {
        Some(e) => e.exit_code(),
        None => EXIT_BUILD_FAILED,
    }
}

} // verus!

verus! {

/// What `{:?}` prints for a list of strings.
pub uninterp spec fn debug_list_text(items: Seq<Seq<char>>) -> Seq<char>;

/// Renders `items` with `{:?}` (std's `Debug` for `Vec<String>`): a
/// bracketed, comma-separated list of quoted, escaped strings. The
/// result is named, not spelled out.
#[verifier::external_body]
fn debug_list(items: &Vec<String>) -> (s: String)
    ensures
        s@ == debug_list_text(items.deep_view()),
{
    format!("{:?}", items)
}

/// What `Path::display` shows for a path.
pub uninterp spec fn path_display_text(p: std::path::PathBuf) -> Seq<char>;

/// Renders a path with `Path::display` (std). The text depends on the path
/// alone and is named, not spelled out.
#[verifier::external_body]
fn path_text(p: &std::path::PathBuf) -> (s: String)
    ensures
        s@ == path_display_text(*p),
{
    format!("{}", p.display())
}

/// The text of an error, where `inner` is the text of the outside value
/// that the variant wraps (network error, wrapped error, version, path).
pub open spec fn hm_error_text(e: HmError, inner: Seq<char>) -> Seq<char> {
    match e {
        HmError::NotAuthenticated => "not authenticated\n  \u{2192} run `hm login`"@,
        HmError::NoOrganization =>
            "no active organization\n  \u{2192} run `hm org switch <slug>` or set HARMONT_ORG=<slug>"@,
        HmError::Api { status, message } => "API error (HTTP "@ + decimal(status as nat) + "): "@ + message@,
        HmError::Network(_) => "network error: "@ + inner,
        HmError::ArchiveTooLarge { max_mb } => "source archive exceeds the "@ + decimal(max_mb as nat)
            + " MB limit\n  \u{2192} trim the source tree or add ignores in .harmontignore"@,
        HmError::PipelineNotFound { slug } => "pipeline not found: "@ + slug@
            + "\n  \u{2192} list available pipelines with `hm pipeline list`"@,
        HmError::PipelineManualDisabled =>
            "error: manual builds are disabled for this pipeline\n  \u{2192} ask the pipeline owner to set allow_manual=True\n\nhm run --help   for more"@,
        HmError::Config(m) => "configuration error: "@ + m@,
        HmError::Docker(m) => "docker error: "@ + m@
            + "\n  \u{2192} check that the Docker daemon is running (`docker version`)"@,
        HmError::PipelineRender(m) => "pipeline render error: "@ + m@,
        HmError::LocalScheduling(m) => "local scheduler error: "@ + m@,
        HmError::PluginLoad { name, reason, .. } => "plugin '"@ + name@ + "' failed to load from "@ + inner + ": "@ + reason@,
        HmError::PluginManifest { name, expected_api, found_api } => "plugin '"@ + name@
            + "': API version mismatch (plugin="@ + decimal(found_api as nat) + ", host="@ + decimal(expected_api as nat) + ")"@,
        HmError::PluginMissingHostFn { name, fn_name, .. } => "plugin '"@ + name@ + "': required host fn '"@ + fn_name@
            + "' is unavailable (this hm build is too old; needs >= "@ + inner + ")"@,
        HmError::PluginPanic { name, capability, message } => "plugin '"@ + name@ + "' panicked during '"@ + capability@
            + "': "@ + message@,
        HmError::PluginTimeout { name, capability, after_ms } => "plugin '"@ + name@ + "' timed out after "@
            + decimal(after_ms as nat) + "ms during '"@ + capability@ + "'"@,
        HmError::PluginConflict { verb, plugin_a, plugin_b } => "plugin conflict: both '"@ + plugin_a@ + "' and '"@
            + plugin_b@ + "' claim '"@ + verb@ + "'"@,
        HmError::UnknownRunner { step_key, runner, available } => "step '"@ + step_key@ + "' requested runner '"@
            + runner@ + "', but no plugin provides it (available: "@ + debug_list_text(available.deep_view()) + ")"@,
        HmError::NoDefaultExecutor =>
            "no default step-executor plugin is registered (need exactly one with default=true)"@,
        HmError::UnknownVerb { verb, available } => "unknown command '"@ + verb@ + "'\n  available: "@
            + debug_list_text(available.deep_view())
            + "\n  fix: `hm plugin install <ref>` to add a plugin that provides this command"@,
        HmError::Other(_) => inner,
    }
}

/// `inner` is what `Display` gives for the outside value the error
/// wraps, what `Path::display` shows for a path, and nothing for the other
/// variants.
pub open spec fn inner_text_ok(e: HmError, inner: Seq<char>) -> bool {
    match e {
        HmError::Network(x) => exists|t: String| to_string_from_display_ensures::<reqwest::Error>(&x, t) && t@ == inner,
        HmError::Other(x) => exists|t: String| to_string_from_display_ensures::<anyhow::Error>(&x, t) && t@ == inner,
        HmError::PluginMissingHostFn { min_hm_version, .. } =>
            exists|t: String| to_string_from_display_ensures::<semver::Version>(&min_hm_version, t) && t@ == inner,
        HmError::PluginLoad { path, .. } => inner == path_display_text(path),
        _ => inner == Seq::<char>::empty(),
    }
}

fn cat(mut s: String, t: &str) -> (r: String)
    ensures
        r@ == s@ + t@,
{
    s.append(t);
    s
}

impl HmError {
    /// The error's message, as the CLI prints it.
    pub fn to_text(&self) -> (s: String)
        ensures
            exists|inner: Seq<char>| inner_text_ok(*self, inner) && s@ == hm_error_text(*self, inner),
    {
        match self {
            HmError::NotAuthenticated => {
                let s = String::from_str("not authenticated\n  \u{2192} run `hm login`");
                assert(inner_text_ok(*self, Seq::empty()));
                s
            },
            HmError::NoOrganization => {
                let s = String::from_str("no active organization\n  \u{2192} run `hm org switch <slug>` or set HARMONT_ORG=<slug>");
                assert(inner_text_ok(*self, Seq::empty()));
                s
            },
            HmError::Api { status, message } => {
                let s = String::from_str("API error (HTTP ");
                let s = cat(s, decimal_string(*status as u64).as_str());
                let s = cat(s, "): ");
                let s = cat(s, message.as_str());
                assert(inner_text_ok(*self, Seq::empty()));
                s
            },
            HmError::Network(e) => {
                let t = e.to_string();
                let s = cat(String::from_str("network error: "), t.as_str());
                assert(inner_text_ok(*self, t@));
                s
            },
            HmError::ArchiveTooLarge { max_mb } => {
                let s = String::from_str("source archive exceeds the ");
                let s = cat(s, decimal_string(*max_mb).as_str());
                let s = cat(s, " MB limit\n  \u{2192} trim the source tree or add ignores in .harmontignore");
                assert(inner_text_ok(*self, Seq::empty()));
                s
            },
            HmError::PipelineNotFound { slug } => {
                let s = cat(String::from_str("pipeline not found: "), slug.as_str());
                let s = cat(s, "\n  \u{2192} list available pipelines with `hm pipeline list`");
                assert(inner_text_ok(*self, Seq::empty()));
                s
            },
            HmError::PipelineManualDisabled => {
                let s = String::from_str(
                    "error: manual builds are disabled for this pipeline\n  \u{2192} ask the pipeline owner to set allow_manual=True\n\nhm run --help   for more",
                );
                assert(inner_text_ok(*self, Seq::empty()));
                s
            },
            HmError::Config(m) => {
                let s = cat(String::from_str("configuration error: "), m.as_str());
                assert(inner_text_ok(*self, Seq::empty()));
                s
            },
            HmError::Docker(m) => {
                let s = cat(String::from_str("docker error: "), m.as_str());
                let s = cat(s, "\n  \u{2192} check that the Docker daemon is running (`docker version`)");
                assert(inner_text_ok(*self, Seq::empty()));
                s
            },
            HmError::PipelineRender(m) => {
                let s = cat(String::from_str("pipeline render error: "), m.as_str());
                assert(inner_text_ok(*self, Seq::empty()));
                s
            },
            HmError::LocalScheduling(m) => {
                let s = cat(String::from_str("local scheduler error: "), m.as_str());
                assert(inner_text_ok(*self, Seq::empty()));
                s
            },
            HmError::PluginLoad { name, path, reason, .. } => {
                let p = path_text(path);
                let s = cat(String::from_str("plugin '"), name.as_str());
                let s = cat(s, "' failed to load from ");
                let s = cat(s, p.as_str());
                let s = cat(s, ": ");
                let s = cat(s, reason.as_str());
                assert(inner_text_ok(*self, p@));
                s
            },
            HmError::PluginManifest { name, expected_api, found_api } => {
                let s = cat(String::from_str("plugin '"), name.as_str());
                let s = cat(s, "': API version mismatch (plugin=");
                let s = cat(s, decimal_string(*found_api as u64).as_str());
                let s = cat(s, ", host=");
                let s = cat(s, decimal_string(*expected_api as u64).as_str());
                let s = cat(s, ")");
                assert(inner_text_ok(*self, Seq::empty()));
                s
            },
            HmError::PluginMissingHostFn { name, fn_name, min_hm_version } => {
                let v = min_hm_version.to_string();
                let s = cat(String::from_str("plugin '"), name.as_str());
                let s = cat(s, "': required host fn '");
                let s = cat(s, fn_name.as_str());
                let s = cat(s, "' is unavailable (this hm build is too old; needs >= ");
                let s = cat(s, v.as_str());
                let s = cat(s, ")");
                assert(inner_text_ok(*self, v@));
                s
            },
            HmError::PluginPanic { name, capability, message } => {
                let s = cat(String::from_str("plugin '"), name.as_str());
                let s = cat(s, "' panicked during '");
                let s = cat(s, capability.as_str());
                let s = cat(s, "': ");
                let s = cat(s, message.as_str());
                assert(inner_text_ok(*self, Seq::empty()));
                s
            },
            HmError::PluginTimeout { name, capability, after_ms } => {
                let s = cat(String::from_str("plugin '"), name.as_str());
                let s = cat(s, "' timed out after ");
                let s = cat(s, decimal_string(*after_ms as u64).as_str());
                let s = cat(s, "ms during '");
                let s = cat(s, capability.as_str());
                let s = cat(s, "'");
                assert(inner_text_ok(*self, Seq::empty()));
                s
            },
            HmError::PluginConflict { verb, plugin_a, plugin_b } => {
                let s = cat(String::from_str("plugin conflict: both '"), plugin_a.as_str());
                let s = cat(s, "' and '");
                let s = cat(s, plugin_b.as_str());
                let s = cat(s, "' claim '");
                let s = cat(s, verb.as_str());
                let s = cat(s, "'");
                assert(inner_text_ok(*self, Seq::empty()));
                s
            },
            HmError::UnknownRunner { step_key, runner, available } => {
                let s = cat(String::from_str("step '"), step_key.as_str());
                let s = cat(s, "' requested runner '");
                let s = cat(s, runner.as_str());
                let s = cat(s, "', but no plugin provides it (available: ");
                let s = cat(s, debug_list(available).as_str());
                let s = cat(s, ")");
                assert(inner_text_ok(*self, Seq::empty()));
                s
            },
            HmError::NoDefaultExecutor => {
                let s = String::from_str("no default step-executor plugin is registered (need exactly one with default=true)");
                assert(inner_text_ok(*self, Seq::empty()));
                s
            },
            HmError::UnknownVerb { verb, available } => {
                let s = cat(String::from_str("unknown command '"), verb.as_str());
                let s = cat(s, "'\n  available: ");
                let s = cat(s, debug_list(available).as_str());
                let s = cat(s, "\n  fix: `hm plugin install <ref>` to add a plugin that provides this command");
                assert(inner_text_ok(*self, Seq::empty()));
                s
            },
            HmError::Other(e) => {
                let t = e.to_string();
                assert(inner_text_ok(*self, t@));
                t
            },
        }
    }
}

} // verus!
