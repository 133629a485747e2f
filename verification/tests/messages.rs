use solana_validator_snapshot_keeper::config::cluster::{MAINNET_BETA, TESTNET, VALID_CLUSTERS};
use solana_validator_snapshot_keeper::config::log_cfg::logfmt_value;
use solana_validator_snapshot_keeper::config::size::{parse_size, SizeError};
use solana_validator_snapshot_keeper::config::{
    Cluster, Config, ConfigError, DirectoryStatus, Snapshots, Validator,
};
use solana_validator_snapshot_keeper::manager::LockHeld;
use solana_validator_snapshot_keeper::time::Span;

fn report(cfg: &Config, dir: DirectoryStatus) -> String {
    cfg.validate(&dir).unwrap_err().report(&cfg.snapshots.directory)
}

#[test]
fn default_config_is_refused_for_the_identity() {
    let cfg = Config::default();
    for dir in [
        DirectoryStatus::Usable,
        DirectoryStatus::NotADirectory,
        DirectoryStatus::Inaccessible("No such file or directory (os error 2)".to_string()),
    ] {
        assert_eq!(
            report(&cfg, dir),
            "validator config: validator.active_identity_pubkey is required"
        );
    }
}

#[test]
fn validator_messages() {
    let v = Validator { rpc_url: String::new(), active_identity_pubkey: String::new() };
    let e = v.validate().unwrap_err();
    assert_eq!(e.message(""), "validator.rpc_url is required");
    assert_eq!(e.section(), "validator config");
    let v = Validator { rpc_url: "http://x".to_string(), active_identity_pubkey: String::new() };
    assert_eq!(v.validate().unwrap_err().message(""), "validator.active_identity_pubkey is required");
}

#[test]
fn cluster_message_lists_the_known_clusters() {
    let c = Cluster { name: "devnet".into(), rpc_url: "https://api.devnet.solana.com".into() };
    let e = c.validate().unwrap_err();
    assert_eq!(
        e.message(""),
        format!("invalid cluster name {:?}, must be one of: {:?}", "devnet", VALID_CLUSTERS)
    );
    assert_eq!(e.message(""), "invalid cluster name \"devnet\", must be one of: [\"mainnet-beta\", \"testnet\"]");
    assert_eq!(e.section(), "cluster config");
    assert_eq!(VALID_CLUSTERS, [MAINNET_BETA, TESTNET]);
    let odd = ConfigError::InvalidClusterName("dev\"net\n".to_string());
    assert_eq!(odd.message(""), format!("invalid cluster name {:?}, must be one of: {:?}", "dev\"net\n", VALID_CLUSTERS));
}

#[test]
fn snapshots_messages() {
    let dir = DirectoryStatus::Usable;
    let mut s = Snapshots::default();
    s.discovery.candidates.sort_order = "slot-age".into();
    let e = s.validate(&dir).unwrap_err();
    assert_eq!(
        e.message(&s.directory),
        "snapshots.discovery.candidates.sort_order must be \"latency\" or \"slot_age\", got \"slot-age\""
    );
    assert_eq!(e.section(), "snapshots config");
    let mut s = Snapshots::default();
    s.discovery.probe.max_latency = Span::from_secs(0);
    assert_eq!(s.validate(&dir).unwrap_err().message(""), "snapshots.discovery.probe.max_latency must be > 0");
    let mut s = Snapshots::default();
    s.directory = String::new();
    assert_eq!(s.validate(&dir).unwrap_err().message(""), "snapshots.directory is required");
    let s = Snapshots::default();
    let e = s.validate(&DirectoryStatus::NotADirectory).unwrap_err();
    assert_eq!(e.report(&s.directory), "snapshots config: snapshots.directory: /mnt/accounts/snapshots is not a directory");
    let e = s.validate(&DirectoryStatus::Inaccessible("No such file or directory (os error 2)".into())).unwrap_err();
    assert_eq!(
        e.report(&s.directory),
        "snapshots config: snapshots.directory: /mnt/accounts/snapshots: No such file or directory (os error 2)"
    );
    let e = s.validate(&DirectoryStatus::NotWritable("Permission denied (os error 13)".into())).unwrap_err();
    assert_eq!(
        e.report(&s.directory),
        "snapshots config: snapshots.directory: not writable (/mnt/accounts/snapshots): Permission denied (os error 13)"
    );
    assert_eq!(ConfigError::ZeroMinSpeed.message(""), "snapshots.download.min_speed must be > 0");
    assert_eq!(ConfigError::ZeroDownloadTimeout.message(""), "snapshots.download.timeout must be > 0");
    assert_eq!(ConfigError::ZeroConnections.message(""), "snapshots.download.connections must be >= 1");
    assert_eq!(ConfigError::ZeroRemoteMaxSlots.message(""), "snapshots.age.remote.max_slots must be >= 1");
    assert_eq!(
        ConfigError::ZeroLocalMaxIncrementalSlots.message(""),
        "snapshots.age.local.max_incremental_slots must be >= 1"
    );
}

#[test]
fn log_messages() {
    assert_eq!(
        ConfigError::InvalidLogLevel("verbose".into()).report(""),
        "log config: log.level must be one of debug, info, warn, error, fatal - got: verbose"
    );
    assert_eq!(
        ConfigError::InvalidLogFormat("xml".into()).report(""),
        "log config: log.format must be one of text, json, logfmt - got: xml"
    );
}

#[test]
fn size_messages() {
    assert_eq!(parse_size("").unwrap_err().message(""), "invalid size \"\" (empty)");
    assert_eq!(
        parse_size("abc").unwrap_err().message("abc"),
        "invalid size \"abc\" (expected format: \"60mb\", \"100kb\", \"1gb\")"
    );
    assert_eq!(parse_size("1.2.3mb").unwrap_err().message("1.2.3mb"), "invalid size number \"1.2.3\"");
    assert_eq!(
        parse_size("10pb").unwrap_err().message("10pb"),
        "invalid size unit \"pb\" (expected b, kb, mb, gb, tb)"
    );
    assert_eq!(SizeError::Empty.message(" \t"), format!("invalid size {:?} (empty)", " \t"));
}

#[test]
fn lock_held_message() {
    let h = LockHeld { pid: 4242, started_at: "2026-04-26T03:17:00Z".to_string() };
    assert_eq!(h.message(), "another instance is running (PID: 4242, started: 2026-04-26T03:17:00Z)");
    let h = LockHeld { pid: -7, started_at: "x".to_string() };
    assert_eq!(h.message(), "another instance is running (PID: -7, started: x)");
    let h = LockHeld { pid: i32::MIN, started_at: String::new() };
    assert_eq!(h.message(), format!("another instance is running (PID: {}, started: )", i32::MIN));
}

#[test]
fn logfmt_values() {
    assert_eq!(logfmt_value("plain"), "plain");
    assert_eq!(logfmt_value(""), "\"\"");
    assert_eq!(logfmt_value("two words"), "\"two words\"");
    assert_eq!(logfmt_value("a=b"), "\"a=b\"");
    assert_eq!(logfmt_value("say \"hi\""), "\"say \\\"hi\\\"\"");
    assert_eq!(logfmt_value("tab\there"), "\"tab\\there\"");
    assert_eq!(logfmt_value("ünïcode"), "ünïcode");
}
