//! The Solana cluster the keeper follows.

use vstd::prelude::*;
use super::{ConfigError, Problem, reports};
use crate::text::str_equals;

verus! {

pub const MAINNET_BETA: &'static str = "mainnet-beta";

pub const TESTNET: &'static str = "testnet";

/// The clusters the keeper knows, in the order they are listed to users.
pub const VALID_CLUSTERS: [&'static str; 2] = [MAINNET_BETA, TESTNET];

/// The clusters the keeper knows.
pub open spec fn known_cluster(name: Seq<char>) -> bool {
    name == "mainnet-beta"@ || name == "testnet"@
}

/// The public RPC endpoint of a known cluster.
pub open spec fn public_rpc_url(name: Seq<char>) -> Option<Seq<char>> {
    if name == "mainnet-beta"@ {
        Some("https://api.mainnet-beta.solana.com"@)
    } else if name == "testnet"@ {
        Some("https://api.testnet.solana.com"@)
    } else {
        None
    }
}

/// The public RPC endpoint of a known cluster, `None` for any other name.
pub fn cluster_rpc_url(name: &str) -> (r: Option<&'static str>)
    ensures
        match r {
            Some(u) => public_rpc_url(name@) == Some(u@),
            None => public_rpc_url(name@) is None,
        },
{
    if str_equals(name, "mainnet-beta") {
        Some("https://api.mainnet-beta.solana.com")
    } else if str_equals(name, "testnet") {
        Some("https://api.testnet.solana.com")
    } else {
        None
    }
}

#[derive(Debug, Clone)]
pub struct Cluster {
    pub name: String,
    pub rpc_url: String,
}

impl Default for Cluster {
    fn default() -> (r: Self)
        ensures
            r.name@ == "mainnet-beta"@,
            r.rpc_url@.len() == 0,
            r.problem() is None,
    {
        Cluster { name: "mainnet-beta".to_owned(), rpc_url: String::new() }
    }
}

impl Cluster {
    /// The first problem with this section, if any.
    pub open spec fn problem(self) -> Option<Problem> {
        if known_cluster(self.name@) {
            None
        } else {
            Some(Problem::InvalidClusterName(self.name@))
        }
    }

    /// The cluster name must be one of the known clusters.
    pub fn validate(&self) -> (r: Result<(), ConfigError>)
        ensures
            reports(r, self.problem()),
    {
        if str_equals(self.name.as_str(), "mainnet-beta") || str_equals(
            self.name.as_str(),
            "testnet",
        ) {
            Ok(())
        } else {
            Err(ConfigError::InvalidClusterName(self.name.clone()))
        }
    }

    /// The RPC URL to use: the configured one, or else the public endpoint of
    /// the cluster (empty for an unknown cluster).
    pub fn effective_rpc_url(&self) -> (r: String)
        ensures
            self.rpc_url@.len() > 0 ==> r@ == self.rpc_url@,
            self.rpc_url@.len() == 0 ==> r@ == match public_rpc_url(self.name@) {
                Some(u) => u,
                None => Seq::<char>::empty(),
            },
    {
        if !self.rpc_url.as_str().is_empty() {
            return self.rpc_url.clone();
        }
        match cluster_rpc_url(self.name.as_str()) {
            Some(u) => u.to_owned(),
            None => String::new(),
        }
    }
}

/// A cluster section is accepted exactly for the two clusters the keeper
/// knows, whatever its RPC URL, and every cluster it accepts has a public
/// endpoint to fall back on.
pub proof fn lemma_cluster_accepted_iff_known(c: Cluster)
    ensures
        c.problem() is None <==> (c.name@ == "mainnet-beta"@ || c.name@ == "testnet"@),
        c.problem() is None ==> public_rpc_url(c.name@) is Some,
{
}

} // verus!
