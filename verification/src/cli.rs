//! Parsed command line of `hm`. The argument parser itself lives with
//! the program; these are the values it produces.
use vstd::prelude::*;

pub mod plugin;

verus! {

/// A filesystem path, carried through opaquely.
#[verifier::external_type_specification]
#[verifier::external_body]
pub struct ExPathBuf(std::path::PathBuf);

/// Global options and the chosen subcommand.
#[derive(Debug)]
pub struct Cli {
    /// Override of the API base URL.
    pub api_url: Option<String>,
    /// Verbose/debug logging.
    pub verbose: bool,
    /// Disable colored output.
    pub no_color: bool,
    /// The subcommand.
    pub command: Command,
}

/// The subcommands of `hm`.
#[derive(Debug)]
pub enum Command {
    /// Run a pipeline locally via Docker.
    Run(RunArgs),
    /// Show hm version and plugin protocol API version.
    Version,
    /// Manage plugins.
    Plugin(PluginCommand),
    /// Manage local long-lived deployments.
    Dev(DevCommand),
    /// Plugin-provided subcommand, captured raw.
    External(Vec<String>),
}

/// Arguments of `hm run`.
#[derive(Debug)]
pub struct RunArgs {
    /// Pipeline slug; required when the repo declares more than one.
    pub pipeline: Option<String>,
    /// Branch to record on the build.
    pub branch: Option<String>,
    /// Build message.
    pub message: Option<String>,
    /// Environment variables (KEY=VALUE).
    pub env: Vec<String>,
    /// Source root (defaults to the working directory).
    pub dir: Option<std::path::PathBuf>,
    /// Skip watching the build after it is created.
    pub no_watch: bool,
    /// Maximum number of chains to run concurrently.
    pub parallelism: Option<usize>,
    /// Output formatter name.
    pub format: String,
}

/// `hm plugin` subcommands.
#[derive(Debug)]
pub enum PluginCommand {
    /// List installed plugins.
    List,
    /// Show one plugin's manifest in detail.
    Info {
        /// Plugin name.
        name: String,
    },
    /// Install a plugin from a file path or HTTPS URL.
    Install {
        /// Local path or HTTPS URL.
        source: String,
        /// SHA-256 hex digest to verify against.
        pin: Option<String>,
    },
    /// Remove an installed plugin by name.
    Remove {
        /// Plugin name.
        name: String,
    },
}

/// `hm dev` subcommands.
#[derive(Debug)]
pub enum DevCommand {
    /// Bring deployments up in the foreground.
    Up(DevUpArgs),
    /// Tear down deployments owned by this worktree's sessions.
    Down(DevDownArgs),
    /// List registered and running deployments.
    Ls,
    /// Tail logs of a live deployment.
    Logs(DevLogsArgs),
    /// Print the host port for a live deployment.
    PortOf(DevPortOfArgs),
    /// One-shot exec into a live deployment container.
    Exec(DevExecArgs),
}

/// Arguments of `hm dev up`.
#[derive(Debug)]
pub struct DevUpArgs {
    /// Deployment slugs; empty means every registered deployment.
    pub slugs: Vec<String>,
    /// Skip transitive dependencies.
    pub no_deps: bool,
    /// Force image rebuild.
    pub rebuild: bool,
}

/// Arguments of `hm dev down`.
#[derive(Debug)]
pub struct DevDownArgs {
    /// Slugs to sweep; empty means all sessions of this worktree.
    pub slugs: Vec<String>,
    /// Sweep one specific session entirely.
    pub session: Option<String>,
    /// Sweep system-wide.
    pub all: bool,
}

/// Arguments of `hm dev logs`.
#[derive(Debug)]
pub struct DevLogsArgs {
    /// Deployment slug.
    pub slug: String,
    /// Follow the log.
    pub follow: bool,
    /// Session id.
    pub session: Option<String>,
}

/// Arguments of `hm dev port-of`.
#[derive(Debug)]
pub struct DevPortOfArgs {
    /// Deployment slug.
    pub slug: String,
    /// Container-internal port whose host binding to print.
    pub container_port: u16,
    /// Session id.
    pub session: Option<String>,
}

/// Arguments of `hm dev exec`.
#[derive(Debug)]
pub struct DevExecArgs {
    /// Deployment slug.
    pub slug: String,
    /// Command to run inside the container.
    pub cmd: Vec<String>,
    /// Session id.
    pub session: Option<String>,
}

} // verus!
