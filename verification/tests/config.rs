use solana_validator_snapshot_keeper::config::cluster::{cluster_rpc_url, MAINNET_BETA, TESTNET};
use solana_validator_snapshot_keeper::config::log_cfg::{parse_level, Level, LogFormat, LogSettings};
use solana_validator_snapshot_keeper::config::size::ByteSize;
use solana_validator_snapshot_keeper::config::snapshots::{
    Age, AgeLocal, AgeRemote, Discovery, DiscoveryCandidates, DiscoveryProbe, Download,
};
use solana_validator_snapshot_keeper::config::{
    Cluster, Config, ConfigError, DirectoryStatus, Hooks, Log, Snapshots, Validator,
};
use solana_validator_snapshot_keeper::config::hooks::HookCommand;
use solana_validator_snapshot_keeper::time::Span;

fn valid_config() -> Config {
    let mut cfg = Config::default();
    cfg.validator.active_identity_pubkey = "Abc111".to_string();
    cfg
}

#[test]
fn defaults_are_the_documented_ones() {
    let cfg = Config::default();
    assert_eq!(cfg.log.level, "info");
    assert_eq!(cfg.log.format, "text");
    assert!(!cfg.log.disable_timestamps);
    assert_eq!(cfg.validator.rpc_url, "http://127.0.0.1:8899");
    assert_eq!(cfg.validator.active_identity_pubkey, "");
    assert_eq!(cfg.cluster.name, "mainnet-beta");
    assert_eq!(cfg.cluster.rpc_url, "");
    let s = &cfg.snapshots;
    assert_eq!(s.directory, "/mnt/accounts/snapshots");
    assert_eq!(s.discovery.candidates.min_suitable_full, 3);
    assert_eq!(s.discovery.candidates.min_suitable_incremental, 5);
    assert_eq!(s.discovery.candidates.sort_order, "latency");
    assert_eq!(s.discovery.probe.concurrency, 500);
    assert_eq!(s.discovery.probe.max_latency, Span { secs: 0, nanos: 100_000_000 });
    assert_eq!(s.download.min_speed, ByteSize(60 * 1024 * 1024));
    assert_eq!(s.download.min_speed_check_delay, Span { secs: 7, nanos: 0 });
    assert_eq!(s.download.timeout, Span { secs: 1800, nanos: 0 });
    assert_eq!(s.download.connections, 8);
    assert_eq!(s.age.remote.max_slots, 1300);
    assert_eq!(s.age.local.max_incremental_slots, 1300);
    assert!(cfg.hooks.on_success.is_empty());
    assert!(cfg.hooks.on_failure.is_empty());
}

#[test]
fn default_config_needs_only_the_identity() {
    let cfg = Config::default();
    assert_eq!(cfg.validate(&DirectoryStatus::Usable), Err(ConfigError::MissingActiveIdentityPubkey));
    assert_eq!(valid_config().validate(&DirectoryStatus::Usable), Ok(()));
}

#[test]
fn validation_reports_the_first_problem_in_order() {
    let mut cfg = valid_config();
    cfg.log.level = "LOUD".to_string();
    cfg.log.format = "xml".to_string();
    cfg.cluster.name = "devnet".to_string();
    assert_eq!(cfg.validate(&DirectoryStatus::Usable), Err(ConfigError::InvalidLogLevel("loud".to_string())));
    cfg.log.level = "Warning".to_string();
    assert_eq!(cfg.validate(&DirectoryStatus::Usable), Err(ConfigError::InvalidLogFormat("xml".to_string())));
    cfg.log.format = "logfmt".to_string();
    assert_eq!(cfg.validate(&DirectoryStatus::Usable), Err(ConfigError::InvalidClusterName("devnet".to_string())));
    cfg.cluster.name = TESTNET.to_string();
    assert_eq!(cfg.validate(&DirectoryStatus::Usable), Ok(()));
    cfg.validator.rpc_url = String::new();
    assert_eq!(cfg.validate(&DirectoryStatus::Usable), Err(ConfigError::MissingValidatorRpcUrl));
}

#[test]
fn snapshot_rules() {
    let usable = DirectoryStatus::Usable;
    let base = Snapshots::default();
    assert_eq!(base.validate(&usable), Ok(()));

    let mut s = base.clone();
    s.discovery.candidates.sort_order = "random".to_string();
    assert_eq!(s.validate(&usable), Err(ConfigError::InvalidSortOrder("random".to_string())));
    assert!(!s.needs_directory_probe());
    s.discovery.candidates.sort_order = "slot_age".to_string();
    assert_eq!(s.validate(&usable), Ok(()));

    let mut s = base.clone();
    s.discovery.probe.max_latency = Span { secs: 0, nanos: 0 };
    assert_eq!(s.validate(&usable), Err(ConfigError::ZeroMaxLatency));

    let mut s = base.clone();
    s.directory = String::new();
    assert_eq!(s.validate(&usable), Err(ConfigError::MissingSnapshotsDirectory));
    assert!(!s.needs_directory_probe());

    let s = base.clone();
    assert!(s.needs_directory_probe());
    assert_eq!(
        s.validate(&DirectoryStatus::Inaccessible("No such file".to_string())),
        Err(ConfigError::SnapshotsDirectoryInaccessible("No such file".to_string()))
    );
    assert_eq!(s.validate(&DirectoryStatus::NotADirectory), Err(ConfigError::SnapshotsDirectoryNotADirectory));
    assert_eq!(
        s.validate(&DirectoryStatus::NotWritable("denied".to_string())),
        Err(ConfigError::SnapshotsDirectoryNotWritable("denied".to_string()))
    );

    let mut s = base.clone();
    s.download.min_speed = ByteSize(0);
    assert_eq!(s.validate(&usable), Err(ConfigError::ZeroMinSpeed));
    let mut s = base.clone();
    s.download.timeout = Span { secs: 0, nanos: 0 };
    assert_eq!(s.validate(&usable), Err(ConfigError::ZeroDownloadTimeout));
    let mut s = base.clone();
    s.download.connections = 0;
    assert_eq!(s.validate(&usable), Err(ConfigError::ZeroConnections));
    let mut s = base.clone();
    s.age.remote.max_slots = 0;
    assert_eq!(s.validate(&usable), Err(ConfigError::ZeroRemoteMaxSlots));
    let mut s = base.clone();
    s.age.local.max_incremental_slots = 0;
    assert_eq!(s.validate(&usable), Err(ConfigError::ZeroLocalMaxIncrementalSlots));
}

#[test]
fn directory_probe_only_after_earlier_checks() {
    let mut cfg = valid_config();
    assert!(cfg.needs_directory_probe());
    cfg.log.format = "yaml".to_string();
    assert!(!cfg.needs_directory_probe());
    assert_eq!(
        cfg.validate(&DirectoryStatus::NotADirectory),
        cfg.validate(&DirectoryStatus::Usable)
    );
}

#[test]
fn levels() {
    assert_eq!(parse_level("trace"), Ok(Level::Trace));
    assert_eq!(parse_level("DEBUG"), Ok(Level::Debug));
    assert_eq!(parse_level("Info"), Ok(Level::Info));
    assert_eq!(parse_level("warn"), Ok(Level::Warn));
    assert_eq!(parse_level("warning"), Ok(Level::Warn));
    assert_eq!(parse_level("error"), Ok(Level::Error));
    assert_eq!(parse_level("FATAL"), Ok(Level::Error));
    assert_eq!(parse_level("Verbose"), Err("verbose".to_string()));
}

#[test]
fn log_install_settings() {
    let log = Log { level: "debug".to_string(), format: "json".to_string(), disable_timestamps: false };
    assert_eq!(
        log.install_settings(None, false),
        LogSettings { level: Level::Debug, format: LogFormat::Json, timestamps: true }
    );
    assert_eq!(
        log.install_settings(Some("error"), true),
        LogSettings { level: Level::Error, format: LogFormat::Json, timestamps: false }
    );
    assert_eq!(log.install_settings(Some(""), false).level, Level::Debug);
    assert_eq!(log.install_settings(Some("nonsense"), false).level, Level::Info);
    let logfmt = Log { level: "info".to_string(), format: "logfmt".to_string(), disable_timestamps: true };
    assert_eq!(
        logfmt.install_settings(None, false),
        LogSettings { level: Level::Info, format: LogFormat::Logfmt, timestamps: false }
    );
    let text = Log { level: "warn".to_string(), format: "text".to_string(), disable_timestamps: false };
    assert_eq!(
        text.install_settings(None, false),
        LogSettings { level: Level::Warn, format: LogFormat::Text, timestamps: true }
    );
    let unknown = Log { level: "info".to_string(), format: "xml".to_string(), disable_timestamps: false };
    assert_eq!(unknown.install_settings(None, false).format, LogFormat::Text);
}

#[test]
fn cluster_urls() {
    assert_eq!(cluster_rpc_url(MAINNET_BETA), Some("https://api.mainnet-beta.solana.com"));
    assert_eq!(cluster_rpc_url("testnet"), Some("https://api.testnet.solana.com"));
    assert_eq!(cluster_rpc_url("devnet"), None);
    let mut c = Cluster::default();
    assert_eq!(c.effective_rpc_url(), "https://api.mainnet-beta.solana.com");
    c.rpc_url = "http://my-node:8899".to_string();
    assert_eq!(c.effective_rpc_url(), "http://my-node:8899");
    let unknown = Cluster { name: "devnet".to_string(), rpc_url: String::new() };
    assert_eq!(unknown.effective_rpc_url(), "");
    assert_eq!(unknown.validate(), Err(ConfigError::InvalidClusterName("devnet".to_string())));
    assert_eq!(Cluster::default().validate(), Ok(()));
}

#[test]
fn validator_section() {
    let v = Validator::default();
    assert_eq!(v.validate(), Err(ConfigError::MissingActiveIdentityPubkey));
    let v = Validator { rpc_url: String::new(), active_identity_pubkey: "x".to_string() };
    assert_eq!(v.validate(), Err(ConfigError::MissingValidatorRpcUrl));
}

#[test]
fn section_defaults() {
    assert_eq!(DiscoveryCandidates::default().sort_order, "latency");
    assert_eq!(DiscoveryProbe::default().concurrency, 500);
    assert_eq!(Discovery::default().candidates.min_suitable_full, 3);
    assert_eq!(Download::default().connections, 8);
    assert_eq!(Age::default().remote.max_slots, 1300);
    assert_eq!(AgeRemote::default().max_slots, 1300);
    assert_eq!(AgeLocal::default().max_incremental_slots, 1300);
    let hooks = Hooks::default();
    assert!(hooks.on_success.is_empty());
    let hook = HookCommand::default();
    assert!(!hook.allow_failure && !hook.disabled && hook.args.is_empty());
}
