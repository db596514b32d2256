//! The configuration handed to the patcher.

use vstd::prelude::*;

verus! {

/// The overrides to embed: pairs of key and value, in any order. A key
/// may occur more than once.
#[derive(Debug, Clone)]
pub struct Config {
    /// Set specific runtime overrides
    pub overrides: Vec<(String, String)>,
}

impl Default for Config {
    fn default() -> (r: Config)
        ensures
            r.overrides@.len() == 0,
    {
        Config { overrides: Vec::new() }
    }
}

} // verus!
