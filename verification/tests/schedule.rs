use std::time::Duration;

use chrono::{DateTime, Datelike, TimeZone, Utc};
use solana_validator_snapshot_keeper::manager::{next_boundary, time_until, try_next_boundary};
use solana_validator_snapshot_keeper::time::{Span, UtcTime, MAX_TIMESTAMP, MIN_TIMESTAMP};

fn utc(t: DateTime<Utc>) -> UtcTime {
    UtcTime { secs: t.timestamp(), nanos: t.timestamp_subsec_nanos() }
}

fn span(d: Duration) -> Span {
    Span { secs: d.as_secs(), nanos: d.subsec_nanos() }
}

/// The grid computation written with chrono, for comparison.
fn chrono_next_boundary(now: DateTime<Utc>, interval: Duration) -> DateTime<Utc> {
    if interval.is_zero() {
        return now;
    }
    let midnight = Utc
        .with_ymd_and_hms(now.year(), now.month(), now.day(), 0, 0, 0)
        .single()
        .unwrap_or(now);
    let elapsed_ns = (now - midnight).num_nanoseconds().unwrap_or(0).max(0) as u128;
    let interval_ns = interval.as_nanos().max(1);
    let intervals = (elapsed_ns / interval_ns) as i32;
    let step = chrono::Duration::from_std(interval).unwrap_or_default();
    let mut next = midnight + step * (intervals + 1);
    if next <= now {
        next += step;
    }
    next
}

#[test]
fn next_boundary_rounds_up_to_interval_grid() {
    let interval = Duration::from_secs(60 * 60);
    let now = Utc.with_ymd_and_hms(2026, 4, 26, 3, 17, 0).unwrap();
    let next = next_boundary(utc(now), span(interval));
    assert_eq!(next, utc(Utc.with_ymd_and_hms(2026, 4, 26, 4, 0, 0).unwrap()));
}

#[test]
fn next_boundary_advances_when_on_grid() {
    let interval = Duration::from_secs(60 * 60);
    let now = Utc.with_ymd_and_hms(2026, 4, 26, 3, 0, 0).unwrap();
    let next = next_boundary(utc(now), span(interval));
    assert_eq!(next, utc(Utc.with_ymd_and_hms(2026, 4, 26, 4, 0, 0).unwrap()));
}

#[test]
fn next_boundary_zero_interval_is_now() {
    let now = Utc.with_ymd_and_hms(2026, 4, 26, 3, 17, 9).unwrap();
    assert_eq!(next_boundary(utc(now), Span { secs: 0, nanos: 0 }), utc(now));
}

#[test]
fn next_boundary_crosses_midnight() {
    let interval = Duration::from_secs(4 * 60 * 60);
    let now = Utc.with_ymd_and_hms(2026, 4, 26, 22, 30, 0).unwrap();
    let next = next_boundary(utc(now), span(interval));
    assert_eq!(next, utc(Utc.with_ymd_and_hms(2026, 4, 27, 0, 0, 0).unwrap()));
}

#[test]
fn next_boundary_huge_interval_falls_back_to_midnight() {
    let now = Utc.with_ymd_and_hms(2026, 4, 26, 3, 17, 0).unwrap();
    let huge = Span { secs: u64::MAX, nanos: 0 };
    assert_eq!(next_boundary(utc(now), huge), utc(Utc.with_ymd_and_hms(2026, 4, 26, 0, 0, 0).unwrap()));
}

#[test]
fn next_boundary_agrees_with_chrono() {
    let intervals = [
        Duration::from_millis(1500),
        Duration::from_secs(7),
        Duration::from_secs(60),
        Duration::from_secs(3600),
        Duration::from_secs(4 * 3600),
        Duration::from_secs(86400),
        Duration::from_secs(3 * 86400 + 17),
        Duration::from_nanos(123_456_789_013),
        Duration::from_micros(50),
    ];
    let mut times: Vec<DateTime<Utc>> = Vec::new();
    for k in 0..300i64 {
        let secs = 1_777_000_000 + k * 7_919_113 - 900_000_000 * (k % 3);
        let nanos = ((k * 104_729) % 1_000_000_000) as u32;
        times.push(DateTime::from_timestamp(secs, nanos).unwrap());
    }
    times.push(DateTime::from_timestamp(-86400 * 400 + 5, 0).unwrap());
    // a leap second
    times.push(DateTime::from_timestamp(1_483_228_799, 1_500_000_000).unwrap());
    for now in times {
        for interval in intervals.iter() {
            let expected = chrono_next_boundary(now, *interval);
            assert_eq!(next_boundary(utc(now), span(*interval)), utc(expected), "{now} {interval:?}");
        }
    }
}

#[test]
fn time_until_agrees_with_chrono() {
    let pairs = [
        (DateTime::from_timestamp(1_000, 0).unwrap(), DateTime::from_timestamp(4_600, 250).unwrap()),
        (DateTime::from_timestamp(4_600, 0).unwrap(), DateTime::from_timestamp(1_000, 0).unwrap()),
        (DateTime::from_timestamp(1_483_228_799, 1_500_000_000).unwrap(), DateTime::from_timestamp(1_483_228_800, 0).unwrap()),
        (DateTime::from_timestamp(1_483_185_659, 1_500_000_000).unwrap(), DateTime::from_timestamp(1_483_185_660, 0).unwrap()),
        (DateTime::from_timestamp(77, 5).unwrap(), DateTime::from_timestamp(77, 5).unwrap()),
    ];
    for (now, next) in pairs {
        let expected = (next - now).to_std().unwrap_or(Duration::from_secs(0));
        assert_eq!(time_until(utc(now), utc(next)), span(expected), "{now} {next}");
    }
}

#[test]
fn timestamp_range_is_chronos() {
    assert_eq!(DateTime::<Utc>::MIN_UTC.timestamp(), MIN_TIMESTAMP);
    assert_eq!(DateTime::<Utc>::MAX_UTC.timestamp(), MAX_TIMESTAMP);
    assert!(DateTime::from_timestamp(MIN_TIMESTAMP - 1, 0).is_none());
    assert!(DateTime::from_timestamp(MAX_TIMESTAMP + 1, 0).is_none());
}

#[test]
fn span_constructors() {
    assert_eq!(Span::from_secs(7), Span { secs: 7, nanos: 0 });
    assert_eq!(Span::from_millis(100), Span { secs: 0, nanos: 100_000_000 });
    assert_eq!(Span::from_millis(2_500), Span { secs: 2, nanos: 500_000_000 });
    assert!(Span { secs: 0, nanos: 0 }.is_zero());
    assert!(!Span { secs: 0, nanos: 1 }.is_zero());
}

#[test]
fn next_boundary_wrapped_count_agrees_with_chrono() {
    // one nanosecond steps: 2^31 of them wrap the 32-bit count
    let midnight = Utc.with_ymd_and_hms(2026, 4, 26, 0, 0, 0).unwrap();
    let interval = Duration::from_nanos(1);
    for extra in [0u64, 1, 5, 1_000_000] {
        let now = midnight + chrono::Duration::nanoseconds((1i64 << 31) + extra as i64);
        let expected = chrono_next_boundary(now, interval);
        assert_eq!(next_boundary(utc(now), span(interval)), utc(expected), "{now}");
    }
}

#[test]
fn boundary_undefined_where_chrono_overflows() {
    let midnight = Utc.with_ymd_and_hms(2026, 4, 26, 0, 0, 0).unwrap();
    // the 32-bit count is i32::MAX: adding one overflows
    let now = midnight + chrono::Duration::nanoseconds((1i64 << 31) - 1);
    assert_eq!(try_next_boundary(utc(now), Span { secs: 0, nanos: 1 }), None);
    // the grid point lies past the last representable date-time
    let late = DateTime::<Utc>::MAX_UTC;
    assert_eq!(try_next_boundary(utc(late), Span { secs: 3600, nanos: 0 }), None);
    let now = Utc.with_ymd_and_hms(2026, 4, 26, 3, 17, 0).unwrap();
    assert_eq!(
        try_next_boundary(utc(now), Span { secs: 3600, nanos: 0 }),
        Some(utc(Utc.with_ymd_and_hms(2026, 4, 26, 4, 0, 0).unwrap()))
    );
}

#[test]
fn instants_from_parts() {
    assert_eq!(UtcTime::from_parts(0, 0), Some(UtcTime { secs: 0, nanos: 0 }));
    assert_eq!(UtcTime::from_parts(59, 1_500_000_000), Some(UtcTime { secs: 59, nanos: 1_500_000_000 }));
    assert_eq!(UtcTime::from_parts(58, 1_500_000_000), None);
    assert_eq!(UtcTime::from_parts(-1, 1_000_000_000), Some(UtcTime { secs: -1, nanos: 1_000_000_000 }));
    assert_eq!(UtcTime::from_parts(0, 2_000_000_000), None);
    assert_eq!(UtcTime::from_parts(MAX_TIMESTAMP + 1, 0), None);
    assert_eq!(UtcTime::from_parts(MIN_TIMESTAMP - 1, 0), None);
    for (secs, nanos) in [(0i64, 0u32), (59, 1_500_000_000), (58, 1_500_000_000), (-1, 1_000_000_000), (12345, 999_999_999)] {
        assert_eq!(UtcTime::from_parts(secs, nanos).is_some(), DateTime::from_timestamp(secs, nanos).is_some());
    }
}

#[test]
fn next_runs_stay_on_the_midnight_grid() {
    for k in 0..500i64 {
        let now = DateTime::from_timestamp(1_700_000_000 + k * 654_321, ((k * 7_777_777) % 1_000_000_000) as u32).unwrap();
        for secs in [1u64, 60, 900, 3600, 5 * 3600, 86400, 2 * 86400] {
            let interval = Duration::from_secs(secs);
            let next = next_boundary(utc(now), span(interval));
            let n = DateTime::from_timestamp(next.secs, next.nanos).unwrap();
            let midnight = Utc.with_ymd_and_hms(now.year(), now.month(), now.day(), 0, 0, 0).unwrap();
            assert!(n > now);
            assert!(n - now <= chrono::Duration::from_std(interval).unwrap());
            let since = (n - midnight).num_nanoseconds().unwrap();
            assert_eq!(since % interval.as_nanos() as i64, 0);
        }
    }
}
