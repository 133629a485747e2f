//! Command-line arguments.

use std::path::PathBuf;
use vstd::prelude::*;

verus! {

/// The parsed command line.
#[derive(Debug)]
pub struct Cli {
    /// Path to the config file.
    pub config: PathBuf,
    /// Overrides the configured log level.
    pub log_level: Option<String>,
    /// Disables timestamps in log output.
    pub log_disable_timestamps: bool,
    pub command: Command,
}

#[derive(Debug)]
pub enum Command {
    /// Run the snapshot keeper, once or on an interval (e.g. "4h", "30m").
    Run { on_interval: Option<String> },
}

} // verus!
