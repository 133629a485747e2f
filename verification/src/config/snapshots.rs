//! Where snapshots live and how they are discovered, downloaded and aged.

use vstd::prelude::*;
use super::{ConfigError, Problem, reports};
use super::size::ByteSize;
use crate::text::str_equals;
use crate::time::Span;

verus! {

#[derive(Debug, Clone)]
pub struct Snapshots {
    pub directory: String,
    pub discovery: Discovery,
    pub download: Download,
    pub age: Age,
}

#[derive(Debug, Clone)]
pub struct Discovery {
    pub candidates: DiscoveryCandidates,
    pub probe: DiscoveryProbe,
}

#[derive(Debug, Clone)]
pub struct DiscoveryCandidates {
    pub min_suitable_full: u32,
    pub min_suitable_incremental: u32,
    pub sort_order: String,
}

#[derive(Debug, Clone)]
pub struct DiscoveryProbe {
    pub concurrency: u32,
    pub max_latency: Span,
}

#[derive(Debug, Clone)]
pub struct Download {
    pub min_speed: ByteSize,
    pub min_speed_check_delay: Span,
    pub timeout: Span,
    pub connections: u32,
}

#[derive(Debug, Clone)]
pub struct Age {
    pub remote: AgeRemote,
    pub local: AgeLocal,
}

#[derive(Debug, Clone)]
pub struct AgeRemote {
    pub max_slots: u64,
}

#[derive(Debug, Clone)]
pub struct AgeLocal {
    pub max_incremental_slots: u64,
}

impl Default for DiscoveryCandidates {
    fn default() -> (r: Self)
        ensures
            r.min_suitable_full == 3,
            r.min_suitable_incremental == 5,
            r.sort_order@ == "latency"@,
    {
        DiscoveryCandidates {
            min_suitable_full: 3,
            min_suitable_incremental: 5,
            sort_order: "latency".to_owned(),
        }
    }
}

impl Default for DiscoveryProbe {
    fn default() -> (r: Self)
        ensures
            r.concurrency == 500,
            r.max_latency.wf(),
            r.max_latency.total_nanos() == 100_000_000,
    {
        DiscoveryProbe { concurrency: 500, max_latency: Span::from_millis(100) }
    }
}

impl Default for Discovery {
    fn default() -> (r: Self)
        ensures
            r.candidates.min_suitable_full == 3,
            r.candidates.min_suitable_incremental == 5,
            r.candidates.sort_order@ == "latency"@,
            r.probe.concurrency == 500,
            r.probe.max_latency.wf(),
            r.probe.max_latency.total_nanos() == 100_000_000,
    {
        Discovery { candidates: DiscoveryCandidates::default(), probe: DiscoveryProbe::default() }
    }
}

impl Default for Download {
    fn default() -> (r: Self)
        ensures
            r.min_speed.0 == 60 * 1024 * 1024,
            r.min_speed_check_delay == (Span { secs: 7, nanos: 0 }),
            r.timeout == (Span { secs: 1800, nanos: 0 }),
            r.connections == 8,
    {
        Download {
            min_speed: ByteSize(60 * 1024 * 1024),
            min_speed_check_delay: Span::from_secs(7),
            timeout: Span::from_secs(30 * 60),
            connections: 8,
        }
    }
}

impl Default for AgeRemote {
    fn default() -> (r: Self)
        ensures
            r.max_slots == 1300,
    {
        AgeRemote { max_slots: 1300 }
    }
}

impl Default for AgeLocal {
    fn default() -> (r: Self)
        ensures
            r.max_incremental_slots == 1300,
    {
        AgeLocal { max_incremental_slots: 1300 }
    }
}

impl Default for Age {
    fn default() -> (r: Self)
        ensures
            r.remote.max_slots == 1300,
            r.local.max_incremental_slots == 1300,
    {
        Age { remote: AgeRemote::default(), local: AgeLocal::default() }
    }
}

impl Default for Snapshots {
    fn default() -> (r: Self)
        ensures
            r.directory@ == "/mnt/accounts/snapshots"@,
            r.discovery.candidates.min_suitable_full == 3,
            r.discovery.candidates.min_suitable_incremental == 5,
            r.discovery.candidates.sort_order@ == "latency"@,
            r.discovery.probe.concurrency == 500,
            r.discovery.probe.max_latency.total_nanos() == 100_000_000,
            r.download.min_speed.0 == 60 * 1024 * 1024,
            r.download.min_speed_check_delay == (Span { secs: 7, nanos: 0 }),
            r.download.timeout == (Span { secs: 1800, nanos: 0 }),
            r.download.connections == 8,
            r.age.remote.max_slots == 1300,
            r.age.local.max_incremental_slots == 1300,
            r.checks_before_probe() is None,
            r.checks_after_probe() is None,
    {
        let r = Snapshots {
            directory: "/mnt/accounts/snapshots".to_owned(),
            discovery: Discovery::default(),
            download: Download::default(),
            age: Age::default(),
        };
        proof {
            reveal_strlit("/mnt/accounts/snapshots");
        }
        r
    }
}

/// What probing the snapshots directory found.
#[derive(Debug, Clone, PartialEq, Eq)]
pub enum DirectoryStatus {
    /// It exists, is a directory and takes a write.
    Usable,
    /// Its metadata could not be read; holds the reason.
    Inaccessible(String),
    NotADirectory,
    /// A probe file could not be written there; holds the reason.
    NotWritable(String),
}

/// The problem a directory probe reports, if any.
pub open spec fn directory_problem(dir: DirectoryStatus) -> Option<Problem> {
    match dir {
        DirectoryStatus::Usable => None,
        DirectoryStatus::Inaccessible(e) => Some(Problem::SnapshotsDirectoryInaccessible(e@)),
        DirectoryStatus::NotADirectory => Some(Problem::SnapshotsDirectoryNotADirectory),
        DirectoryStatus::NotWritable(e) => Some(Problem::SnapshotsDirectoryNotWritable(e@)),
    }
}

/// The candidate orderings discovery supports.
pub open spec fn known_sort_order(s: Seq<char>) -> bool {
    s == "latency"@ || s == "slot_age"@
}

impl Snapshots {
    /// The checks made before the directory is probed, in order.
    pub open spec fn checks_before_probe(self) -> Option<Problem> {
        if !known_sort_order(self.discovery.candidates.sort_order@) {
            Some(Problem::InvalidSortOrder(self.discovery.candidates.sort_order@))
        } else if self.discovery.probe.max_latency.secs == 0
            && self.discovery.probe.max_latency.nanos == 0 {
            Some(Problem::ZeroMaxLatency)
        } else if self.directory@.len() == 0 {
            Some(Problem::MissingSnapshotsDirectory)
        } else {
            None
        }
    }

    /// The checks made after the directory is probed, in order.
    pub open spec fn checks_after_probe(self) -> Option<Problem> {
        if self.download.min_speed.0 < 1 {
            Some(Problem::ZeroMinSpeed)
        } else if self.download.timeout.secs == 0 && self.download.timeout.nanos == 0 {
            Some(Problem::ZeroDownloadTimeout)
        } else if self.download.connections < 1 {
            Some(Problem::ZeroConnections)
        } else if self.age.remote.max_slots < 1 {
            Some(Problem::ZeroRemoteMaxSlots)
        } else if self.age.local.max_incremental_slots < 1 {
            Some(Problem::ZeroLocalMaxIncrementalSlots)
        } else {
            None
        }
    }

    /// The first problem with this section, given what the directory probe found.
    pub open spec fn problem(self, dir: DirectoryStatus) -> Option<Problem> {
        if self.checks_before_probe() is Some {
            self.checks_before_probe()
        } else if directory_problem(dir) is Some {
            directory_problem(dir)
        } else {
            self.checks_after_probe()
        }
    }

    /// Whether the directory is to be probed: only once the checks before
    /// it have passed.
    pub fn needs_directory_probe(&self) -> (r: bool)
        ensures
            r == (self.checks_before_probe() is None),
    {
        let so = self.discovery.candidates.sort_order.as_str();
        (str_equals(so, "latency") || str_equals(so, "slot_age"))
            && !self.discovery.probe.max_latency.is_zero()
            && !self.directory.as_str().is_empty()
    }

    /// Checks the section in order: sort order, probe latency, directory
    /// (given as `dir`, what probing it found), minimum speed, timeout,
    /// connections and the two slot ages.
    pub fn validate(&self, dir: &DirectoryStatus) -> (r: Result<(), ConfigError>)
        ensures
            reports(r, self.problem(*dir)),
    {
        let so = self.discovery.candidates.sort_order.as_str();
        if !(str_equals(so, "latency") || str_equals(so, "slot_age")) {
            return Err(ConfigError::InvalidSortOrder(self.discovery.candidates.sort_order.clone()));
        }
        if self.discovery.probe.max_latency.is_zero() {
            return Err(ConfigError::ZeroMaxLatency);
        }
        if self.directory.as_str().is_empty() {
            return Err(ConfigError::MissingSnapshotsDirectory);
        }
        match dir {
            DirectoryStatus::Usable => {},
            DirectoryStatus::Inaccessible(e) => {
                return Err(ConfigError::SnapshotsDirectoryInaccessible(e.clone()));
            },
            DirectoryStatus::NotADirectory => {
                return Err(ConfigError::SnapshotsDirectoryNotADirectory);
            },
            DirectoryStatus::NotWritable(e) => {
                return Err(ConfigError::SnapshotsDirectoryNotWritable(e.clone()));
            },
        }
        if self.download.min_speed.as_u64() < 1 {
            return Err(ConfigError::ZeroMinSpeed);
        }
        if self.download.timeout.is_zero() {
            return Err(ConfigError::ZeroDownloadTimeout);
        }
        if self.download.connections < 1 {
            return Err(ConfigError::ZeroConnections);
        }
        if self.age.remote.max_slots < 1 {
            return Err(ConfigError::ZeroRemoteMaxSlots);
        }
        if self.age.local.max_incremental_slots < 1 {
            return Err(ConfigError::ZeroLocalMaxIncrementalSlots);
        }
        Ok(())
    }
}

/// A snapshots section is refused only for what is wrong with it. With a
/// sort order of latency or slot_age, a directory named and found usable, it
/// is accepted exactly when the probe latency is not the zero span and every
/// amount it sets is at least one (speed, timeout, connections, both slot
/// ages). Each refusal for a zero names a field that is zero, and a zero probe
/// latency is always refused, whatever the probe would find.
pub proof fn lemma_snapshots_refused_only_at_zero(s: Snapshots, dir: DirectoryStatus)
    ensures
        (s.discovery.candidates.sort_order@ == "latency"@ || s.discovery.candidates.sort_order@
            == "slot_age"@) && s.directory@.len() > 0 && dir is Usable ==> (s.problem(dir) is None
            <==> (s.discovery.probe.max_latency.total_nanos() > 0 && s.download.min_speed.0 >= 1
            && s.download.timeout.total_nanos() > 0 && s.download.connections >= 1
            && s.age.remote.max_slots >= 1 && s.age.local.max_incremental_slots >= 1)),
        (s.discovery.candidates.sort_order@ == "latency"@ || s.discovery.candidates.sort_order@
            == "slot_age"@) && s.discovery.probe.max_latency.total_nanos() == 0 ==> s.problem(dir)
            == Some(Problem::ZeroMaxLatency),
        s.problem(dir) == Some(Problem::ZeroMaxLatency) ==> s.discovery.probe.max_latency.total_nanos() == 0,
        s.problem(dir) == Some(Problem::ZeroMinSpeed) ==> s.download.min_speed.0 == 0,
        s.problem(dir) == Some(Problem::ZeroDownloadTimeout) ==> s.download.timeout.total_nanos() == 0,
        s.problem(dir) == Some(Problem::ZeroConnections) ==> s.download.connections == 0,
        s.problem(dir) == Some(Problem::ZeroRemoteMaxSlots) ==> s.age.remote.max_slots == 0,
        s.problem(dir) == Some(Problem::ZeroLocalMaxIncrementalSlots) ==> s.age.local.max_incremental_slots == 0,
{
    reveal_strlit("latency");
    reveal_strlit("slot_age");
}

} // verus!
