//! Plain-value models of a span of time and of an instant in UTC.

use vstd::prelude::*;
use vstd::arithmetic::div_mod::{lemma_hoist_over_denominator, lemma_mod_multiples_vanish};

verus! {

/// A span of time: whole seconds and the nanoseconds beyond them.
#[derive(Debug, Clone, Copy, PartialEq, Eq)]
pub struct Span {
    pub secs: u64,
    pub nanos: u32,
}

impl Span {
    /// The nanoseconds stay below one second.
    pub open spec fn wf(self) -> bool {
        self.nanos < 1_000_000_000
    }

    /// The span in nanoseconds.
    pub open spec fn total_nanos(self) -> nat {
        (self.secs as nat) * 1_000_000_000 + (self.nanos as nat)
    }

    pub fn from_secs(secs: u64) -> (r: Span)
        ensures
            r.wf(),
            r.secs == secs,
            r.nanos == 0,
    {
        Span { secs, nanos: 0 }
    }

    pub fn from_millis(millis: u64) -> (r: Span)
        ensures
            r.wf(),
            r.total_nanos() == millis * 1_000_000,
    {
        let r = Span { secs: millis / 1000, nanos: ((millis % 1000) * 1_000_000) as u32 };
        assert(r.total_nanos() == millis * 1_000_000) by (nonlinear_arith)
            requires
                r.secs == millis / 1000,
                r.nanos == (millis % 1000) * 1_000_000,
        ;
        r
    }

    pub fn is_zero(&self) -> (r: bool)
        ensures
            r == (self.secs == 0 && self.nanos == 0),
    {
        self.secs == 0 && self.nanos == 0
    }
}

/// Earliest second a UTC date-time can hold: the first second of year
/// -262143 (chrono's `DateTime::<Utc>::MIN_UTC`).
pub const MIN_TIMESTAMP: i64 = -8_334_601_228_800;

/// Latest second a UTC date-time can hold: the last second of year 262142
/// (chrono's `DateTime::<Utc>::MAX_UTC`).
pub const MAX_TIMESTAMP: i64 = 8_210_266_876_799;

pub const NANOS_PER_SEC: i128 = 1_000_000_000;

/// An instant in UTC: seconds since the Unix epoch (leap seconds not
/// counted) and the nanoseconds beyond them, which reach into a second
/// second while a leap second lasts.
#[derive(Debug, Clone, Copy, PartialEq, Eq)]
pub struct UtcTime {
    pub secs: i64,
    pub nanos: u32,
}

impl UtcTime {
    /// A date-time that exists: in range, and a leap second only at the end
    /// of a minute.
    pub open spec fn wf(self) -> bool {
        &&& MIN_TIMESTAMP <= self.secs <= MAX_TIMESTAMP
        &&& self.nanos < 2_000_000_000
        &&& self.nanos >= 1_000_000_000 ==> self.secs % 60 == 59
    }

    /// Nanoseconds since the epoch, a leap second counted as an extension of
    /// the second before it.
    pub open spec fn total_nanos(self) -> int {
        self.secs * 1_000_000_000 + self.nanos
    }

    /// The instant `secs` seconds and `nanos` nanoseconds after the epoch,
    /// if a date-time can be that instant.
    pub fn from_parts(secs: i64, nanos: u32) -> (r: Option<UtcTime>)
        ensures
            r == (if (UtcTime { secs, nanos }).wf() {
                Some(UtcTime { secs, nanos })
            } else {
                None
            }),
    {
        if secs < MIN_TIMESTAMP || secs > MAX_TIMESTAMP || nanos >= 2_000_000_000 {
            return None;
        }
        let shifted = ((secs as i128) - (MIN_TIMESTAMP as i128)) as u64;
        proof {
            assert(MIN_TIMESTAMP as int == 60 * (-138910020480));
            lemma_mod_multiples_vanish(-138910020480, shifted as int, 60);
        }
        if nanos >= 1_000_000_000 && shifted % 60 != 59 {
            return None;
        }
        Some(UtcTime { secs, nanos })
    }

    /// The second at which this instant's UTC day starts.
    pub open spec fn day_start(self) -> int {
        self.secs - self.secs % 86400
    }
}

/// The instant `ns` nanoseconds after the epoch.
pub open spec fn instant(ns: int) -> UtcTime {
    UtcTime { secs: (ns / 1_000_000_000) as i64, nanos: (ns % 1_000_000_000) as u32 }
}

/// `ns` nanoseconds after the epoch falls in the range a date-time can hold.
pub open spec fn in_range(ns: int) -> bool {
    MIN_TIMESTAMP <= ns / 1_000_000_000 <= MAX_TIMESTAMP
}

/// The instant `ns` is at or before `t`, compared as date-times are: by
/// second, then by nanosecond.
pub open spec fn not_after(ns: int, t: UtcTime) -> bool {
    ||| ns / 1_000_000_000 < t.secs
    ||| ns / 1_000_000_000 == t.secs && ns % 1_000_000_000 <= t.nanos
}

/// The instant `ns` nanoseconds after the epoch.
pub fn instant_at(ns: i128) -> (r: UtcTime)
    requires
        in_range(ns as int),
    ensures
        r == instant(ns as int),
        r.wf(),
{
    let base: i128 = (MIN_TIMESTAMP as i128) * NANOS_PER_SEC;
    let shifted = ns - base;
    proof {
        lemma_hoist_over_denominator(shifted as int, MIN_TIMESTAMP as int, 1_000_000_000);
        lemma_mod_multiples_vanish(MIN_TIMESTAMP as int, shifted as int, 1_000_000_000);
        assert(shifted >= 0);
    }
    let r = UtcTime {
        secs: (shifted / NANOS_PER_SEC) as i64 + MIN_TIMESTAMP,
        nanos: (shifted % NANOS_PER_SEC) as u32,
    };
    r
}

/// Whether the instant `ns` is at or before `t`.
pub fn at_or_before(ns: i128, t: UtcTime) -> (r: bool)
    requires
        in_range(ns as int),
    ensures
        r == not_after(ns as int, t),
{
    let i = instant_at(ns);
    i.secs < t.secs || (i.secs == t.secs && i.nanos <= t.nanos)
}

} // verus!
