//! The keeper's configuration: its sections, their defaults and the rules
//! that a loaded configuration must meet.

pub mod binary64;
pub mod cluster;
pub mod hooks;
pub mod log_cfg;
pub mod size;
pub mod snapshots;
pub mod validator;

use std::path::PathBuf;
use vstd::prelude::*;
use crate::time::Span;
use crate::text::{debug_quoted, push_debug_quoted, push_str};

pub use cluster::Cluster;
pub use hooks::Hooks;
pub use log_cfg::Log;
pub use snapshots::{DirectoryStatus, Snapshots, directory_problem};
pub use validator::Validator;

verus! {

/// Why a configuration was refused; the first rule that fails, in the order
/// log, validator, cluster, snapshots.
#[derive(Debug, Clone, PartialEq, Eq)]
pub enum ConfigError {
    /// `log.level` is unknown; holds it lowercased.
    InvalidLogLevel(String),
    /// `log.format` is none of text, json, logfmt; holds it.
    InvalidLogFormat(String),
    MissingValidatorRpcUrl,
    MissingActiveIdentityPubkey,
    /// `cluster.name` is none of the known clusters; holds it.
    InvalidClusterName(String),
    /// `snapshots.discovery.candidates.sort_order` is unknown; holds it.
    InvalidSortOrder(String),
    ZeroMaxLatency,
    MissingSnapshotsDirectory,
    /// The snapshots directory could not be inspected; holds the reason.
    SnapshotsDirectoryInaccessible(String),
    SnapshotsDirectoryNotADirectory,
    /// The snapshots directory refused a write; holds the reason.
    SnapshotsDirectoryNotWritable(String),
    ZeroMinSpeed,
    ZeroDownloadTimeout,
    ZeroConnections,
    ZeroRemoteMaxSlots,
    ZeroLocalMaxIncrementalSlots,
}

/// A configuration problem as a mathematical value.
pub ghost enum Problem {
    InvalidLogLevel(Seq<char>),
    InvalidLogFormat(Seq<char>),
    MissingValidatorRpcUrl,
    MissingActiveIdentityPubkey,
    InvalidClusterName(Seq<char>),
    InvalidSortOrder(Seq<char>),
    ZeroMaxLatency,
    MissingSnapshotsDirectory,
    SnapshotsDirectoryInaccessible(Seq<char>),
    SnapshotsDirectoryNotADirectory,
    SnapshotsDirectoryNotWritable(Seq<char>),
    ZeroMinSpeed,
    ZeroDownloadTimeout,
    ZeroConnections,
    ZeroRemoteMaxSlots,
    ZeroLocalMaxIncrementalSlots,
}

impl View for ConfigError {
    type V = Problem;

    open spec fn view(&self) -> Problem {
        match self {
            ConfigError::InvalidLogLevel(s) => Problem::InvalidLogLevel(s@),
            ConfigError::InvalidLogFormat(s) => Problem::InvalidLogFormat(s@),
            ConfigError::MissingValidatorRpcUrl => Problem::MissingValidatorRpcUrl,
            ConfigError::MissingActiveIdentityPubkey => Problem::MissingActiveIdentityPubkey,
            ConfigError::InvalidClusterName(s) => Problem::InvalidClusterName(s@),
            ConfigError::InvalidSortOrder(s) => Problem::InvalidSortOrder(s@),
            ConfigError::ZeroMaxLatency => Problem::ZeroMaxLatency,
            ConfigError::MissingSnapshotsDirectory => Problem::MissingSnapshotsDirectory,
            ConfigError::SnapshotsDirectoryInaccessible(s) => Problem::SnapshotsDirectoryInaccessible(s@),
            ConfigError::SnapshotsDirectoryNotADirectory => Problem::SnapshotsDirectoryNotADirectory,
            ConfigError::SnapshotsDirectoryNotWritable(s) => Problem::SnapshotsDirectoryNotWritable(s@),
            ConfigError::ZeroMinSpeed => Problem::ZeroMinSpeed,
            ConfigError::ZeroDownloadTimeout => Problem::ZeroDownloadTimeout,
            ConfigError::ZeroConnections => Problem::ZeroConnections,
            ConfigError::ZeroRemoteMaxSlots => Problem::ZeroRemoteMaxSlots,
            ConfigError::ZeroLocalMaxIncrementalSlots => Problem::ZeroLocalMaxIncrementalSlots,
        }
    }
}

/// `r` reports exactly `problem`: `Ok` when there is none.
pub open spec fn reports(r: Result<(), ConfigError>, problem: Option<Problem>) -> bool {
    match r {
        Ok(()) => problem is None,
        Err(e) => problem == Some(e@),
    }
}

/// The section a problem is reported under.
pub open spec fn problem_section(p: Problem) -> Seq<char> {
    match p {
        Problem::InvalidLogLevel(_) | Problem::InvalidLogFormat(_) => "log config"@,
        Problem::MissingValidatorRpcUrl | Problem::MissingActiveIdentityPubkey => "validator config"@,
        Problem::InvalidClusterName(_) => "cluster config"@,
        _ => "snapshots config"@,
    }
}

/// The context between the section and the message, where there is one:
/// the snapshots directory, for the two problems that carry an outside reason.
pub open spec fn problem_context(p: Problem, directory: Seq<char>) -> Option<Seq<char>> {
    match p {
        Problem::SnapshotsDirectoryInaccessible(_) => Some("snapshots.directory: "@ + directory),
        Problem::SnapshotsDirectoryNotWritable(_) => Some(
            "snapshots.directory: not writable ("@ + directory + ")"@,
        ),
        _ => None,
    }
}

/// The message a problem is reported with; `directory` is the configured
/// snapshots directory.
pub open spec fn problem_message(p: Problem, directory: Seq<char>) -> Seq<char> {
    match p {
        Problem::InvalidLogLevel(got) => "log.level must be one of debug, info, warn, error, fatal - got: "@
            + got,
        Problem::InvalidLogFormat(got) => "log.format must be one of text, json, logfmt - got: "@
            + got,
        Problem::MissingValidatorRpcUrl => "validator.rpc_url is required"@,
        Problem::MissingActiveIdentityPubkey => "validator.active_identity_pubkey is required"@,
        Problem::InvalidClusterName(name) => "invalid cluster name "@ + debug_quoted(name)
            + ", must be one of: [\"mainnet-beta\", \"testnet\"]"@,
        Problem::InvalidSortOrder(got) => "snapshots.discovery.candidates.sort_order must be \"latency\" or \"slot_age\", got "@
            + debug_quoted(got),
        Problem::ZeroMaxLatency => "snapshots.discovery.probe.max_latency must be > 0"@,
        Problem::MissingSnapshotsDirectory => "snapshots.directory is required"@,
        Problem::SnapshotsDirectoryInaccessible(reason) => reason,
        Problem::SnapshotsDirectoryNotADirectory => "snapshots.directory: "@ + directory
            + " is not a directory"@,
        Problem::SnapshotsDirectoryNotWritable(reason) => reason,
        Problem::ZeroMinSpeed => "snapshots.download.min_speed must be > 0"@,
        Problem::ZeroDownloadTimeout => "snapshots.download.timeout must be > 0"@,
        Problem::ZeroConnections => "snapshots.download.connections must be >= 1"@,
        Problem::ZeroRemoteMaxSlots => "snapshots.age.remote.max_slots must be >= 1"@,
        Problem::ZeroLocalMaxIncrementalSlots => "snapshots.age.local.max_incremental_slots must be >= 1"@,
    }
}

/// The whole report of a problem, section, context and message joined by
/// ": " (the alternate rendering of an error with its contexts).
pub open spec fn problem_report(p: Problem, directory: Seq<char>) -> Seq<char> {
    match problem_context(p, directory) {
        Some(c) => problem_section(p) + ": "@ + c + ": "@ + problem_message(p, directory),
        None => problem_section(p) + ": "@ + problem_message(p, directory),
    }
}

impl ConfigError {
    /// The section this problem is reported under: "log config",
    /// "validator config", "cluster config" or "snapshots config".
    pub fn section(&self) -> (r: &'static str)
        ensures
            r@ == problem_section(self@),
    {
        match self {
            ConfigError::InvalidLogLevel(_) | ConfigError::InvalidLogFormat(_) => "log config",
            ConfigError::MissingValidatorRpcUrl | ConfigError::MissingActiveIdentityPubkey => {
                "validator config"
            },
            ConfigError::InvalidClusterName(_) => "cluster config",
            _ => "snapshots config",
        }
    }

    /// The context between section and message, where there is one.
    pub fn context(&self, directory: &str) -> (r: Option<String>)
        ensures
            match r {
                Some(c) => problem_context(self@, directory@) == Some(c@),
                None => problem_context(self@, directory@) is None,
            },
    {
        match self {
            ConfigError::SnapshotsDirectoryInaccessible(_) => {
                let mut c = String::new();
                push_str(&mut c, "snapshots.directory: ");
                push_str(&mut c, directory);
                Some(c)
            },
            ConfigError::SnapshotsDirectoryNotWritable(_) => {
                let mut c = String::new();
                push_str(&mut c, "snapshots.directory: not writable (");
                push_str(&mut c, directory);
                push_str(&mut c, ")");
                Some(c)
            },
            _ => None,
        }
    }

    /// The message of this problem; `directory` is the configured snapshots
    /// directory.
    pub fn message(&self, directory: &str) -> (r: String)
        ensures
            r@ == problem_message(self@, directory@),
    {
        let mut m = String::new();
        match self {
            ConfigError::InvalidLogLevel(got) => {
                push_str(&mut m, "log.level must be one of debug, info, warn, error, fatal - got: ");
                push_str(&mut m, got.as_str());
            },
            ConfigError::InvalidLogFormat(got) => {
                push_str(&mut m, "log.format must be one of text, json, logfmt - got: ");
                push_str(&mut m, got.as_str());
            },
            ConfigError::MissingValidatorRpcUrl => push_str(&mut m, "validator.rpc_url is required"),
            ConfigError::MissingActiveIdentityPubkey => {
                push_str(&mut m, "validator.active_identity_pubkey is required")
            },
            ConfigError::InvalidClusterName(name) => {
                push_str(&mut m, "invalid cluster name ");
                push_debug_quoted(&mut m, name.as_str());
                push_str(&mut m, ", must be one of: [\"mainnet-beta\", \"testnet\"]");
            },
            ConfigError::InvalidSortOrder(got) => {
                push_str(
                    &mut m,
                    "snapshots.discovery.candidates.sort_order must be \"latency\" or \"slot_age\", got ",
                );
                push_debug_quoted(&mut m, got.as_str());
            },
            ConfigError::ZeroMaxLatency => {
                push_str(&mut m, "snapshots.discovery.probe.max_latency must be > 0")
            },
            ConfigError::MissingSnapshotsDirectory => {
                push_str(&mut m, "snapshots.directory is required")
            },
            ConfigError::SnapshotsDirectoryInaccessible(reason) => push_str(&mut m, reason.as_str()),
            ConfigError::SnapshotsDirectoryNotADirectory => {
                push_str(&mut m, "snapshots.directory: ");
                push_str(&mut m, directory);
                push_str(&mut m, " is not a directory");
            },
            ConfigError::SnapshotsDirectoryNotWritable(reason) => push_str(&mut m, reason.as_str()),
            ConfigError::ZeroMinSpeed => push_str(&mut m, "snapshots.download.min_speed must be > 0"),
            ConfigError::ZeroDownloadTimeout => {
                push_str(&mut m, "snapshots.download.timeout must be > 0")
            },
            ConfigError::ZeroConnections => {
                push_str(&mut m, "snapshots.download.connections must be >= 1")
            },
            ConfigError::ZeroRemoteMaxSlots => {
                push_str(&mut m, "snapshots.age.remote.max_slots must be >= 1")
            },
            ConfigError::ZeroLocalMaxIncrementalSlots => {
                push_str(&mut m, "snapshots.age.local.max_incremental_slots must be >= 1")
            },
        }
        assert(m@ =~= problem_message(self@, directory@));
        m
    }

    /// The whole report: section, context where there is one, and message,
    /// joined by ": ".
    pub fn report(&self, directory: &str) -> (r: String)
        ensures
            r@ == problem_report(self@, directory@),
    {
        let mut r = String::new();
        push_str(&mut r, self.section());
        push_str(&mut r, ": ");
        match self.context(directory) {
            Some(c) => {
                push_str(&mut r, c.as_str());
                push_str(&mut r, ": ");
            },
            None => {},
        }
        let m = self.message(directory);
        push_str(&mut r, m.as_str());
        assert(r@ =~= problem_report(self@, directory@));
        r
    }
}

/// A filesystem path; opaque here.
#[verifier::external_type_specification]
#[verifier::external_body]
pub struct ExPathBuf(PathBuf);

/// `PathBuf::new`, made callable from verified code. No claim is made of the
/// path it returns (std documents it as empty; nothing here depends on that).
pub assume_specification[ PathBuf::new ]() -> PathBuf;

/// `<PathBuf as Clone>::clone`, made callable from verified code. No claim is
/// made of the copy it returns.
pub assume_specification[ <PathBuf as Clone>::clone ](p: &PathBuf) -> PathBuf;

/// The whole configuration, with the file it was read from.
#[derive(Debug, Clone)]
pub struct Config {
    pub log: Log,
    pub validator: Validator,
    pub cluster: Cluster,
    pub snapshots: Snapshots,
    pub hooks: Hooks,
    pub file: PathBuf,
}

impl Default for Config {
    fn default() -> (r: Self)
        ensures
            r.log.level@ == "info"@,
            r.log.format@ == "text"@,
            !r.log.disable_timestamps,
            r.log.problem() is None,
            r.validator.rpc_url@ == "http://127.0.0.1:8899"@,
            r.validator.active_identity_pubkey@.len() == 0,
            r.cluster.name@ == "mainnet-beta"@,
            r.cluster.rpc_url@.len() == 0,
            r.cluster.problem() is None,
            r.snapshots.directory@ == "/mnt/accounts/snapshots"@,
            r.snapshots.discovery.candidates.min_suitable_full == 3,
            r.snapshots.discovery.candidates.min_suitable_incremental == 5,
            r.snapshots.discovery.candidates.sort_order@ == "latency"@,
            r.snapshots.discovery.probe.concurrency == 500,
            r.snapshots.discovery.probe.max_latency.total_nanos() == 100_000_000,
            r.snapshots.download.min_speed.0 == 60 * 1024 * 1024,
            r.snapshots.download.min_speed_check_delay == (Span { secs: 7, nanos: 0 }),
            r.snapshots.download.timeout == (Span { secs: 1800, nanos: 0 }),
            r.snapshots.download.connections == 8,
            r.snapshots.age.remote.max_slots == 1300,
            r.snapshots.age.local.max_incremental_slots == 1300,
            r.hooks.on_success@.len() == 0,
            r.hooks.on_failure@.len() == 0,
            r.problem(DirectoryStatus::Usable) == Some(Problem::MissingActiveIdentityPubkey),
    {
        Config {
            log: Log::default(),
            validator: Validator::default(),
            cluster: Cluster::default(),
            snapshots: Snapshots::default(),
            hooks: Hooks { on_success: Vec::new(), on_failure: Vec::new() },
            file: PathBuf::new(),
        }
    }
}

impl Config {
    /// The first problem of the configuration, section by section, given what
    /// probing the snapshots directory found.
    pub open spec fn problem(self, dir: DirectoryStatus) -> Option<Problem> {
        if self.log.problem() is Some {
            self.log.problem()
        } else if self.validator.problem() is Some {
            self.validator.problem()
        } else if self.cluster.problem() is Some {
            self.cluster.problem()
        } else {
            self.snapshots.problem(dir)
        }
    }

    /// Whether validation gets as far as probing the snapshots directory.
    pub fn needs_directory_probe(&self) -> (r: bool)
        ensures
            r == (self.log.problem() is None && self.validator.problem() is None
                && self.cluster.problem() is None && self.snapshots.checks_before_probe() is None),
    {
        self.log.validate().is_ok() && self.validator.validate().is_ok()
            && self.cluster.validate().is_ok() && self.snapshots.needs_directory_probe()
    }

    /// Checks the sections in order: log, validator, cluster, snapshots;
    /// `dir` is what probing the snapshots directory found.
    pub fn validate(&self, dir: &DirectoryStatus) -> (r: Result<(), ConfigError>)
        ensures
            reports(r, self.problem(*dir)),
    {
        self.log.validate()?;
        self.validator.validate()?;
        self.cluster.validate()?;
        self.snapshots.validate(dir)
    }
}

/// The default configuration is refused, whatever the snapshots directory
/// probe finds, with "validator config: validator.active_identity_pubkey is
/// required".
pub proof fn lemma_default_config_report(cfg: Config, dir: DirectoryStatus, directory: Seq<char>)
    requires
        cfg.log.problem() is None,
        cfg.validator.rpc_url@.len() > 0,
        cfg.validator.active_identity_pubkey@.len() == 0,
    ensures
        cfg.problem(dir) == Some(Problem::MissingActiveIdentityPubkey),
        problem_report(Problem::MissingActiveIdentityPubkey, directory)
            == "validator config: validator.active_identity_pubkey is required"@,
{
    reveal_strlit("validator config");
    reveal_strlit(": ");
    reveal_strlit("validator.active_identity_pubkey is required");
    reveal_strlit("validator config: validator.active_identity_pubkey is required");
    assert(problem_report(Problem::MissingActiveIdentityPubkey, directory)
        =~= "validator config: validator.active_identity_pubkey is required"@);
}

/// A configuration is accepted exactly when each of its sections is.
pub proof fn lemma_config_accepted_iff_sections(cfg: Config, dir: DirectoryStatus)
    ensures
        cfg.problem(dir) is None <==> (cfg.log.problem() is None && cfg.validator.problem() is None
            && cfg.cluster.problem() is None && cfg.snapshots.problem(dir) is None),
{
}

/// What the directory probe finds matters only once it is called for: while
/// an earlier check fails, every probe outcome gives the same verdict.
pub proof fn lemma_probe_outcome_irrelevant_unless_needed(
    cfg: Config,
    d1: DirectoryStatus,
    d2: DirectoryStatus,
)
    requires
        !(cfg.log.problem() is None && cfg.validator.problem() is None
            && cfg.cluster.problem() is None && cfg.snapshots.checks_before_probe() is None),
    ensures
        cfg.problem(d1) == cfg.problem(d2),
{
}

} // verus!
