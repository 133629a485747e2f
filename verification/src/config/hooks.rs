//! Commands run after a snapshot download succeeds or fails.

use std::collections::BTreeMap;
use vstd::prelude::*;

verus! {

#[derive(Debug, Clone, Default)]
pub struct Hooks {
    pub on_success: Vec<HookCommand>,
    pub on_failure: Vec<HookCommand>,
}

#[derive(Debug, Clone, Default)]
pub struct HookCommand {
    pub name: String,
    pub cmd: String,
    pub args: Vec<String>,
    pub environment: BTreeMap<String, String>,
    pub allow_failure: bool,
    pub stream_output: bool,
    pub disabled: bool,
}

} // verus!
