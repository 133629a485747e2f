//! One cycle of snapshot keeping.

use vstd::prelude::*;
use crate::config::Config;

verus! {

/// Runs keeper cycles over a configuration.
pub struct Keeper<'a> {
    cfg: &'a Config,
}

impl<'a> Keeper<'a> {
    /// The configuration this keeper runs with.
    pub closed spec fn config(&self) -> &'a Config {
        self.cfg
    }

    pub fn new(cfg: &'a Config) -> (r: Self)
        ensures
            r.config() == cfg,
    {
        Keeper { cfg }
    }
}

} // verus!
