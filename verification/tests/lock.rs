use solana_validator_snapshot_keeper::config::Config;
use solana_validator_snapshot_keeper::keeper::Keeper;
use solana_validator_snapshot_keeper::manager::{
    check_existing_lock, liveness_probe_target, LockHeld, LockInfo, Manager, LOCK_FILENAME,
};
use solana_validator_snapshot_keeper::time::UtcTime;

#[test]
fn lock_path_is_in_the_snapshots_directory() {
    let mut cfg = Config::default();
    assert_eq!(
        Manager::new(&cfg).lock_path(),
        "/mnt/accounts/snapshots/solana-validator-snapshot-keeper.lock"
    );
    cfg.snapshots.directory = "/data/snaps/".to_string();
    assert_eq!(Manager::new(&cfg).lock_path(), "/data/snaps/solana-validator-snapshot-keeper.lock");
    cfg.snapshots.directory = String::new();
    assert_eq!(Manager::new(&cfg).lock_path(), LOCK_FILENAME);
    let p = std::path::Path::new("/data/snaps").join(LOCK_FILENAME);
    cfg.snapshots.directory = "/data/snaps".to_string();
    assert_eq!(p.to_str().unwrap(), Manager::new(&cfg).lock_path());
}

#[test]
fn manager_and_keeper_hold_the_config() {
    let cfg = Config::default();
    let m = Manager::new(&cfg);
    assert!(std::ptr::eq(m.cfg(), &cfg));
    let _k = Keeper::new(&cfg);
}

#[test]
fn live_holder_refuses_stale_lock_is_taken() {
    let info = LockInfo { pid: 4242, started_at: "2026-04-26T03:17:00Z".to_string() };
    assert_eq!(
        check_existing_lock(Some(&info), true),
        Err(LockHeld { pid: 4242, started_at: "2026-04-26T03:17:00Z".to_string() })
    );
    assert_eq!(check_existing_lock(Some(&info), false), Ok(Some(4242)));
    assert_eq!(check_existing_lock(None, true), Ok(None));
    assert_eq!(check_existing_lock(None, false), Ok(None));
}

#[test]
fn only_positive_pids_are_probed() {
    assert_eq!(liveness_probe_target(1), Some(1));
    assert_eq!(liveness_probe_target(31337), Some(31337));
    assert_eq!(liveness_probe_target(0), None);
    assert_eq!(liveness_probe_target(-1), None);
}

#[test]
fn lock_record_timestamp() {
    // 2026-04-26T03:17:00Z
    let info = LockInfo::new(7, UtcTime { secs: 1_777_173_420, nanos: 123 });
    assert_eq!(info.pid, 7);
    assert_eq!(info.started_at, "2026-04-26T03:17:00Z");
    let leap = LockInfo::new(1, UtcTime { secs: 1_483_228_799, nanos: 1_200_000_000 });
    assert_eq!(leap.started_at, "2016-12-31T23:59:60Z");
}

#[test]
fn lock_record_timestamp_years_and_days() {
    let cases: [(i64, u32, &str); 6] = [
        (951_825_600, 0, "2000-02-29T12:00:00Z"),
        (-1, 999_999_999, "1969-12-31T23:59:59Z"),
        (253_402_300_800, 0, "+10000-01-01T00:00:00Z"),
        (-60_836_313_600, 0, "0042-03-05T00:00:00Z"),
        (-62_167_305_600, 0, "-0001-12-31T00:00:00Z"),
        (0, 0, "1970-01-01T00:00:00Z"),
    ];
    for (secs, nanos, text) in cases {
        assert_eq!(LockInfo::new(1, UtcTime { secs, nanos }).started_at, text, "{secs}");
    }
}
