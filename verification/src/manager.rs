//! Scheduling of keeper runs and the lock that keeps them exclusive.

use vstd::prelude::*;
use crate::config::Config;
use crate::text::{decimal, digit_char, push_signed_decimal, push_str, signed_decimal};
use vstd::arithmetic::div_mod::{lemma_fundamental_div_mod, lemma_mod_multiples_basic, lemma_mod_multiples_vanish};
use crate::time::{
    MAX_TIMESTAMP, MIN_TIMESTAMP, NANOS_PER_SEC, Span, UtcTime, at_or_before, in_range, instant, instant_at,
    not_after,
};

verus! {

/// Largest interval, in whole seconds, that a chrono `TimeDelta` can hold
/// (`i64::MAX` milliseconds), so that `TimeDelta::from_std` accepts it.
pub const MAX_STEP_SECS: u64 = 9_223_372_036_854_775;

/// The nanoseconds beyond `MAX_STEP_SECS` of the largest time delta.
pub const MAX_STEP_NANOS: u32 = 807_000_000;

/// The grid step, in nanoseconds: the interval itself, or zero when the
/// interval is too long for a time delta.
pub open spec fn step_nanos(interval: Span) -> int {
    if interval.secs < MAX_STEP_SECS || (interval.secs == MAX_STEP_SECS && interval.nanos
        <= MAX_STEP_NANOS) {
        interval.total_nanos() as int
    } else {
        0
    }
}

/// `q` as a 32-bit signed integer (two's complement truncation).
pub open spec fn wrap_i32(q: int) -> int {
    let t = q % 0x1_0000_0000;
    if t >= 0x8000_0000 {
        t - 0x1_0000_0000
    } else {
        t
    }
}

/// Nanoseconds since the start of `now`'s UTC day.
pub open spec fn elapsed_today(now: UtcTime) -> int {
    now.total_nanos() - now.day_start() * 1_000_000_000
}

/// How many whole intervals have passed since midnight, as a 32-bit count.
pub open spec fn grid_index(now: UtcTime, interval: Span) -> int {
    wrap_i32(elapsed_today(now) / (interval.total_nanos() as int))
}

/// The grid point after the last whole interval since midnight.
pub open spec fn first_candidate(now: UtcTime, interval: Span) -> int {
    now.day_start() * 1_000_000_000 + step_nanos(interval) * (grid_index(now, interval) + 1)
}

/// The inputs on which the boundary can be computed: the interval count fits
/// and every instant formed lies in the range of a date-time.
pub open spec fn boundary_defined(now: UtcTime, interval: Span) -> bool {
    ||| interval.secs == 0 && interval.nanos == 0
    ||| {
        &&& grid_index(now, interval) != 0x7fff_ffff
        &&& in_range(first_candidate(now, interval))
        &&& not_after(first_candidate(now, interval), now) ==> in_range(
            first_candidate(now, interval) + step_nanos(interval),
        )
    }
}

/// The next run: `now` for a zero interval; otherwise the grid point
/// `midnight + (k + 1)·interval`, pushed one more step if it is not after `now`.
pub open spec fn boundary(now: UtcTime, interval: Span) -> UtcTime {
    if interval.secs == 0 && interval.nanos == 0 {
        now
    } else {
        let c = first_candidate(now, interval);
        if not_after(c, now) {
            instant(c + step_nanos(interval))
        } else {
            instant(c)
        }
    }
}

/// The grid quantities of a non-zero interval: the first candidate, the
/// step and the 32-bit interval count.
fn grid_parts(now: UtcTime, interval: Span) -> (r: (i128, i128, i128))
    requires
        now.wf(),
        interval.wf(),
        !(interval.secs == 0 && interval.nanos == 0),
    ensures
        r.0 == first_candidate(now, interval),
        r.1 == step_nanos(interval),
        r.2 == grid_index(now, interval),
        0 <= r.1 <= 0x10_0000_0000_0000_0000_0000,
        -0x20_0000_0000_0000_0000_0000_0000_0000 <= r.0 <= 0x20_0000_0000_0000_0000_0000_0000_0000,
{
    let shifted = ((now.secs as i128) - (MIN_TIMESTAMP as i128)) as u64;
    let sod = shifted % 86400;
    proof {
        assert(MIN_TIMESTAMP as int == 86400 * (-96465292));
        lemma_mod_multiples_vanish(-96465292, shifted as int, 86400);
        assert(sod as int == now.secs % 86400);
    }
    let elapsed: u128 = (sod as u128) * 1_000_000_000 + (now.nanos as u128);
    let iv: u128 = (interval.secs as u128) * 1_000_000_000 + (interval.nanos as u128);
    assert(elapsed == elapsed_today(now));
    let q = elapsed / iv;
    let t = q % 0x1_0000_0000;
    let k: i128 = if t >= 0x8000_0000 {
        (t as i128) - 0x1_0000_0000
    } else {
        t as i128
    };
    let n = k + 1;
    let step: i128 = if interval.secs < MAX_STEP_SECS || (interval.secs == MAX_STEP_SECS
        && interval.nanos <= MAX_STEP_NANOS) {
        iv as i128
    } else {
        0
    };
    proof {
        assert(0 <= step <= 0x10_0000_0000_0000_0000_0000);
        assert(-0x8000_0000 <= n <= 0x8000_0000);
        assert(-0x10_0000_0000_0000_0000_0000_0000_0000 <= step * n
            <= 0x10_0000_0000_0000_0000_0000_0000_0000) by (nonlinear_arith)
            requires
                0 <= step <= 0x10_0000_0000_0000_0000_0000,
                -0x8000_0000 <= n <= 0x8000_0000,
        ;
    }
    let midnight: i128 = ((now.secs as i128) - (sod as i128)) * NANOS_PER_SEC;
    (midnight + step * n, step, k)
}

/// Whether `ns` nanoseconds after the epoch lies in the range of a date-time.
fn within_range(ns: i128) -> (r: bool)
    requires
        -0x40_0000_0000_0000_0000_0000_0000_0000 <= ns <= 0x40_0000_0000_0000_0000_0000_0000_0000,
    ensures
        r == in_range(ns as int),
{
    let lo: i128 = (MIN_TIMESTAMP as i128) * NANOS_PER_SEC;
    let hi: i128 = ((MAX_TIMESTAMP as i128) + 1) * NANOS_PER_SEC;
    proof {
        lemma_fundamental_div_mod(ns as int, 1_000_000_000);
        let q = ns as int / 1_000_000_000;
        if q < MIN_TIMESTAMP {
            assert(ns < lo) by (nonlinear_arith)
                requires
                    q < MIN_TIMESTAMP,
                    ns == 1_000_000_000 * q + ns as int % 1_000_000_000,
                    ns as int % 1_000_000_000 < 1_000_000_000,
                    lo == MIN_TIMESTAMP * 1_000_000_000,
            ;
        }
        if q > MAX_TIMESTAMP {
            assert(ns >= hi) by (nonlinear_arith)
                requires
                    q > MAX_TIMESTAMP,
                    ns == 1_000_000_000 * q + ns as int % 1_000_000_000,
                    ns as int % 1_000_000_000 >= 0,
                    hi == (MAX_TIMESTAMP + 1) * 1_000_000_000,
            ;
        }
        if MIN_TIMESTAMP <= q <= MAX_TIMESTAMP {
            assert(lo <= ns < hi) by (nonlinear_arith)
                requires
                    MIN_TIMESTAMP <= q <= MAX_TIMESTAMP,
                    ns == 1_000_000_000 * q + ns as int % 1_000_000_000,
                    0 <= ns as int % 1_000_000_000 < 1_000_000_000,
                    lo == MIN_TIMESTAMP * 1_000_000_000,
                    hi == (MAX_TIMESTAMP + 1) * 1_000_000_000,
            ;
        }
    }
    lo <= ns && ns < hi
}

/// The next instant on the grid `midnight UTC + k·interval` of `now`'s day,
/// or `None` where it cannot be computed (see `boundary_defined`).
pub fn try_next_boundary(now: UtcTime, interval: Span) -> (r: Option<UtcTime>)
    requires
        now.wf(),
        interval.wf(),
    ensures
        r == (if boundary_defined(now, interval) {
            Some(boundary(now, interval))
        } else {
            None
        }),
{
    if interval.is_zero() {
        return Some(now);
    }
    let (c, step, k) = grid_parts(now, interval);
    if k == 0x7fff_ffff || !within_range(c) {
        return None;
    }
    if at_or_before(c, now) {
        if within_range(c + step) {
            Some(instant_at(c + step))
        } else {
            None
        }
    } else {
        Some(instant_at(c))
    }
}

/// The next instant on the grid `midnight UTC + k·interval` of `now`'s day.
pub fn next_boundary(now: UtcTime, interval: Span) -> (r: UtcTime)
    requires
        now.wf(),
        interval.wf(),
        boundary_defined(now, interval),
    ensures
        r == boundary(now, interval),
{
    match try_next_boundary(now, interval) {
        Some(r) => r,
        None => {
            assert(false);
            now
        },
    }
}

/// Runs stay on the midnight grid: for a non-zero interval that a time delta
/// can hold, on a day position whose interval count fits in 32 bits, the next
/// run is strictly after `now`, at most one interval later, and a whole number
/// of intervals after the start of `now`'s UTC day.
pub proof fn lemma_boundary_on_grid(now: UtcTime, interval: Span)
    requires
        now.wf(),
        interval.wf(),
        interval.total_nanos() > 0,
        step_nanos(interval) == interval.total_nanos(),
        elapsed_today(now) / (interval.total_nanos() as int) < 0x7fff_ffff,
        boundary_defined(now, interval),
    ensures
        now.total_nanos() < boundary(now, interval).total_nanos(),
        boundary(now, interval).total_nanos() <= now.total_nanos() + interval.total_nanos(),
        (boundary(now, interval).total_nanos() - now.day_start() * 1_000_000_000) % (
        interval.total_nanos() as int) == 0,
{
    let s = interval.total_nanos() as int;
    let e = elapsed_today(now);
    let q = e / s;
    let mid = now.day_start() * 1_000_000_000;
    assert(0 <= now.secs % 86400 < 86400);
    assert(e >= 0);
    lemma_fundamental_div_mod(e, s);
    assert(q >= 0) by (nonlinear_arith)
        requires
            e >= 0,
            s > 0,
            q == e / s,
    ;
    assert(q % 0x1_0000_0000 == q);
    assert(grid_index(now, interval) == q);
    let c = first_candidate(now, interval);
    assert(c == mid + s * (q + 1));
    assert(s * (q + 1) == s * q + s) by (nonlinear_arith);
    assert(e % s < s);
    assert(c > now.total_nanos());
    assert(c - now.total_nanos() <= s);
    // the candidate is after `now`, also as date-times compare
    let cs = c / 1_000_000_000;
    lemma_fundamental_div_mod(c, 1_000_000_000);
    if cs < now.secs {
        assert(c < now.secs * 1_000_000_000) by (nonlinear_arith)
            requires
                cs < now.secs,
                c == 1_000_000_000 * cs + c % 1_000_000_000,
                c % 1_000_000_000 < 1_000_000_000,
        ;
    }
    assert(!not_after(c, now));
    assert(boundary(now, interval) == instant(c));
    assert(instant(c).total_nanos() == c);
    assert((c - mid) == s * (q + 1));
    lemma_mod_multiples_basic(q + 1, s);
    assert(s * (q + 1) == (q + 1) * s) by (nonlinear_arith);
}

/// `a - b` in nanoseconds as chrono's `DateTime` subtraction counts it: by
/// seconds since the epoch, except that a leap second is counted as elapsed
/// when the other instant lies later in its day.
pub open spec fn delta_nanos(a: UtcTime, b: UtcTime) -> int {
    let ad = a.secs % 86400;
    let bd = b.secs % 86400;
    let adj = if ad > bd && b.nanos >= 1_000_000_000 {
        1int
    } else if ad < bd && a.nanos >= 1_000_000_000 {
        -1int
    } else {
        0int
    };
    (a.secs - b.secs + adj) * 1_000_000_000 + a.nanos - b.nanos
}

/// Away from leap seconds the wait between two instants is the plain
/// difference of their times, across midnight and across any number of days:
/// `delta_nanos(a, b) == a.total_nanos() - b.total_nanos()`.
pub proof fn lemma_delta_is_plain_difference(a: UtcTime, b: UtcTime)
    requires
        a.nanos < 1_000_000_000,
        b.nanos < 1_000_000_000,
    ensures
        delta_nanos(a, b) == a.total_nanos() - b.total_nanos(),
{
}

/// A leap second lasts a whole second: from an instant inside a leap second
/// to a later second of the same day, the wait is the plain difference plus
/// the one second that the leap inserted.
pub proof fn lemma_delta_across_leap(a: UtcTime, b: UtcTime)
    requires
        b.nanos >= 1_000_000_000,
        a.nanos < 1_000_000_000,
        a.secs % 86400 > b.secs % 86400,
    ensures
        delta_nanos(a, b) == a.total_nanos() - b.total_nanos() + 1_000_000_000,
{
}

/// Subtracting the other way round gives the opposite difference, leap
/// seconds included.
pub proof fn lemma_delta_antisymmetric(a: UtcTime, b: UtcTime)
    ensures
        delta_nanos(a, b) == -delta_nanos(b, a),
{
}

/// Seconds since the start of the UTC day of `t`.
fn second_of_day(t: UtcTime) -> (r: i64)
    requires
        t.wf(),
    ensures
        r == t.secs % 86400,
{
    let shifted = ((t.secs as i128) - (MIN_TIMESTAMP as i128)) as u64;
    proof {
        assert(MIN_TIMESTAMP as int == 86400 * (-96465292));
        lemma_mod_multiples_vanish(-96465292, shifted as int, 86400);
    }
    (shifted % 86400) as i64
}

/// How long to wait from `now` until `next`; nothing when `next` is not later.
pub fn time_until(now: UtcTime, next: UtcTime) -> (r: Span)
    requires
        now.wf(),
        next.wf(),
    ensures
        r.wf(),
        delta_nanos(next, now) < 0 ==> r.secs == 0 && r.nanos == 0,
        delta_nanos(next, now) >= 0 ==> r.total_nanos() == delta_nanos(next, now),
        now.nanos < 1_000_000_000 && next.nanos < 1_000_000_000 && now.total_nanos()
            <= next.total_nanos() ==> r.total_nanos() == next.total_nanos() - now.total_nanos(),
        now.nanos < 1_000_000_000 && next.nanos < 1_000_000_000 && next.total_nanos()
            < now.total_nanos() ==> r.total_nanos() == 0,
{
    let ad = second_of_day(next);
    let bd = second_of_day(now);
    let adj: i128 = if ad > bd && now.nanos >= 1_000_000_000 {
        1
    } else if ad < bd && next.nanos >= 1_000_000_000 {
        -1
    } else {
        0
    };
    let d: i128 = ((next.secs as i128) - (now.secs as i128) + adj) * NANOS_PER_SEC
        + (next.nanos as i128) - (now.nanos as i128);
    if d < 0 {
        Span { secs: 0, nanos: 0 }
    } else {
        let r = Span { secs: (d / NANOS_PER_SEC) as u64, nanos: (d % NANOS_PER_SEC) as u32 };
        proof {
            lemma_fundamental_div_mod(d as int, 1_000_000_000);
        }
        r
    }
}

/// The lock file's name inside the snapshots directory.
pub const LOCK_FILENAME: &'static str = "solana-validator-snapshot-keeper.lock";

/// `dir` joined with the relative path `name`: a '/' goes between them unless
/// `dir` is empty or already ends with one.
pub open spec fn join_path(dir: Seq<char>, name: Seq<char>) -> Seq<char> {
    if dir.len() == 0 || dir.last() == '/' {
        dir + name
    } else {
        dir + seq!['/'] + name
    }
}

/// A keeper run orchestrated over a configuration.
pub struct Manager<'a> {
    cfg: &'a Config,
}

impl<'a> Manager<'a> {
    /// The configuration this manager runs with.
    pub closed spec fn config(&self) -> &'a Config {
        self.cfg
    }

    pub fn new(cfg: &'a Config) -> (r: Self)
        ensures
            r.config() == cfg,
    {
        Manager { cfg }
    }

    /// The configuration this manager runs with.
    pub fn cfg(&self) -> (r: &'a Config)
        ensures
            r == self.config(),
    {
        self.cfg
    }

    /// The lock file: `<snapshots.directory>/solana-validator-snapshot-keeper.lock`.
    pub fn lock_path(&self) -> (r: String)
        ensures
            r@ == join_path(self.config().snapshots.directory@, LOCK_FILENAME@),
    {
        let dir = self.cfg.snapshots.directory.as_str();
        let mut r = dir.to_owned();
        let n = dir.unicode_len();
        if n > 0 && dir.get_char(n - 1) != '/' {
            r.push('/');
        }
        push_str(&mut r, LOCK_FILENAME);
        assert(r@ =~= join_path(dir@, LOCK_FILENAME@));
        r
    }
}

/// What the lock file records: who holds the lock and since when.
#[derive(Debug, Clone, PartialEq, Eq)]
pub struct LockInfo {
    pub pid: i32,
    pub started_at: String,
}

/// The proleptic Gregorian date `(year, month, day)` of the day `z` days
/// after 1970-01-01 (counting in 400-year eras of 146097 days, years taken
/// to start in March).
pub open spec fn civil_date(z: int) -> (int, int, int) {
    let z2 = z + 719468;
    let era = z2 / 146097;
    let doe = z2 - era * 146097;
    let yoe = (doe - doe / 1460 + doe / 36524 - doe / 146096) / 365;
    let doy = doe - (365 * yoe + yoe / 4 - yoe / 100);
    let mp = (5 * doy + 2) / 153;
    let day = doy - (153 * mp + 2) / 5 + 1;
    let month = if mp < 10 {
        mp + 3
    } else {
        mp - 9
    };
    let year = yoe + era * 400 + if month <= 2 {
        1int
    } else {
        0int
    };
    (year, month, day)
}

/// `n` in decimal, with zeros in front up to `width` digits.
pub open spec fn zero_padded(n: nat, width: nat) -> Seq<char> {
    let d = decimal(n);
    if d.len() >= width {
        d
    } else {
        Seq::new((width - d.len()) as nat, |i: int| '0') + d
    }
}

/// A year as `%Y` writes it: four digits within 0..=9999, otherwise a sign
/// and at least four digits.
pub open spec fn year_text(y: int) -> Seq<char> {
    if 0 <= y <= 9999 {
        zero_padded(y as nat, 4)
    } else if y < 0 {
        seq!['-'] + zero_padded((-y) as nat, 4)
    } else {
        seq!['+'] + zero_padded(y as nat, 4)
    }
}

/// Two decimal digits of `n < 100`.
pub open spec fn two_digits(n: int) -> Seq<char> {
    seq![digit_char((n / 10) as nat), digit_char((n % 10) as nat)]
}

/// The text `%Y-%m-%dT%H:%M:%SZ` of the instant `secs` seconds (and `nanos`
/// nanoseconds) after the epoch in UTC; a leap second (`nanos` of a second
/// or more) shows as second 60.
pub open spec fn utc_seconds_text(secs: int, nanos: int) -> Seq<char> {
    let (y, m, d) = civil_date(secs / 86400);
    let sod = secs % 86400;
    let sec = sod % 60 + if nanos >= 1_000_000_000 {
        1int
    } else {
        0int
    };
    year_text(y) + seq!['-'] + two_digits(m) + seq!['-'] + two_digits(d) + seq!['T']
        + two_digits(sod / 3600) + seq![':'] + two_digits(sod % 3600 / 60) + seq![':']
        + two_digits(sec) + seq!['Z']
}

/// Formats `t` with chrono (`DateTime::from_timestamp`, then `format` with
/// `%Y-%m-%dT%H:%M:%SZ` and `to_string`), e.g. "2026-04-26T03:17:00Z". The
/// contract claims the text is `utc_seconds_text` of `t`: chrono's proleptic
/// Gregorian UTC date and time, its `%Y` year padding and its second 60 for a
/// leap second.
#[verifier::external_body]
fn format_utc_seconds(t: UtcTime) -> (r: String)
    requires
        t.wf(),
    ensures
        r@ == utc_seconds_text(t.secs as int, t.nanos as int),
{
    let at = chrono::DateTime::<chrono::Utc>::from_timestamp(t.secs, t.nanos).unwrap();
    at.format("%Y-%m-%dT%H:%M:%SZ").to_string()
}

impl LockInfo {
    /// The lock record of process `pid` started at `now`.
    pub fn new(pid: i32, now: UtcTime) -> (r: LockInfo)
        requires
            now.wf(),
        ensures
            r.pid == pid,
            r.started_at@ == utc_seconds_text(now.secs as int, now.nanos as int),
    {
        LockInfo { pid, started_at: format_utc_seconds(now) }
    }
}

/// Another live instance holds the lock.
#[derive(Debug, Clone, PartialEq, Eq)]
pub struct LockHeld {
    pub pid: i32,
    pub started_at: String,
}

/// The refusal a held lock is reported with.
pub open spec fn lock_held_text(pid: int, started_at: Seq<char>) -> Seq<char> {
    "another instance is running (PID: "@ + signed_decimal(pid) + ", started: "@ + started_at
        + ")"@
}

impl LockHeld {
    /// "another instance is running (PID: <pid>, started: <started_at>)".
    pub fn message(&self) -> (r: String)
        ensures
            r@ == lock_held_text(self.pid as int, self.started_at@),
    {
        let mut m = String::new();
        push_str(&mut m, "another instance is running (PID: ");
        push_signed_decimal(&mut m, self.pid as i64);
        push_str(&mut m, ", started: ");
        push_str(&mut m, self.started_at.as_str());
        push_str(&mut m, ")");
        assert(m@ =~= lock_held_text(self.pid as int, self.started_at@));
        m
    }
}

/// The process to probe for liveness: only a positive PID names a process.
pub fn liveness_probe_target(pid: i32) -> (r: Option<i32>)
    ensures
        r == (if pid > 0 {
            Some(pid)
        } else {
            None
        }),
{
    if pid > 0 {
        Some(pid)
    } else {
        None
    }
}

/// The verdict on an existing lock record (`None` when there is no readable
/// record): a live holder refuses the lock; a dead one leaves a stale lock,
/// whose PID is returned, to be overwritten.
pub fn check_existing_lock(existing: Option<&LockInfo>, holder_alive: bool) -> (r: Result<Option<i32>, LockHeld>)
    ensures
        match existing {
            None => r == Ok::<Option<i32>, LockHeld>(None),
            Some(info) => if holder_alive {
                r matches Err(h) && h.pid == info.pid && h.started_at@ == info.started_at@
            } else {
                r == Ok::<Option<i32>, LockHeld>(Some(info.pid))
            },
        },
{
    match existing {
        None => Ok(None),
        Some(info) => {
            if holder_alive {
                Err(LockHeld { pid: info.pid, started_at: info.started_at.clone() })
            } else {
                Ok(Some(info.pid))
            }
        },
    }
}

} // verus!
