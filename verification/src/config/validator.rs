//! The local validator the keeper watches.

use vstd::prelude::*;
use super::{ConfigError, Problem, reports};

verus! {

#[derive(Debug, Clone)]
pub struct Validator {
    pub rpc_url: String,
    pub active_identity_pubkey: String,
}

impl Default for Validator {
    fn default() -> (r: Self)
        ensures
            r.rpc_url@ == "http://127.0.0.1:8899"@,
            r.active_identity_pubkey@.len() == 0,
            r.problem() == Some(Problem::MissingActiveIdentityPubkey),
    {
        let r = Validator {
            rpc_url: "http://127.0.0.1:8899".to_owned(),
            active_identity_pubkey: String::new(),
        };
        proof {
            reveal_strlit("http://127.0.0.1:8899");
        }
        r
    }
}

impl Validator {
    /// The first problem with this section, if any.
    pub open spec fn problem(self) -> Option<Problem> {
        if self.rpc_url@.len() == 0 {
            Some(Problem::MissingValidatorRpcUrl)
        } else if self.active_identity_pubkey@.len() == 0 {
            Some(Problem::MissingActiveIdentityPubkey)
        } else {
            None
        }
    }

    /// Both the RPC URL and the identity pubkey are required.
    pub fn validate(&self) -> (r: Result<(), ConfigError>)
        ensures
            reports(r, self.problem()),
    {
        if self.rpc_url.as_str().is_empty() {
            return Err(ConfigError::MissingValidatorRpcUrl);
        }
        if self.active_identity_pubkey.as_str().is_empty() {
            return Err(ConfigError::MissingActiveIdentityPubkey);
        }
        Ok(())
    }
}

/// A validator section is accepted exactly when both its RPC URL and its
/// identity pubkey are non-empty (nothing is trimmed); an empty RPC URL is
/// reported first.
pub proof fn lemma_validator_accepted_iff_filled(v: Validator)
    ensures
        v.problem() is None <==> (v.rpc_url@.len() > 0 && v.active_identity_pubkey@.len() > 0),
        v.problem() == Some(Problem::MissingValidatorRpcUrl) <==> v.rpc_url@.len() == 0,
        v.problem() == Some(Problem::MissingActiveIdentityPubkey) <==> (v.rpc_url@.len() > 0
            && v.active_identity_pubkey@.len() == 0),
{
}

} // verus!
