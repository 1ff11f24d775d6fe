//! The whole policy of a run.

use vstd::prelude::*;
use crate::policy::file::FilePolicy;
use crate::policy::net::{deny_all, NetworkPolicy};

verus! {

/// What the child may connect to and which files it may not open.
#[derive(Debug)]
pub struct Policy {
    pub network: NetworkPolicy,
    pub file: FilePolicy,
}

impl Default for Policy {
    /// The policy that allows no connection and denies no file.
    fn default() -> (p: Policy)
        ensures
            p.network@ == deny_all(),
            p.file@.len() == 0,
            p.file.base_dir() == seq!['/'],
    {
        Policy { network: NetworkPolicy::new(), file: FilePolicy::new() }
    }
}

impl Policy {
    /// The policy that allows no connection and denies no file.
    pub fn new() -> (p: Policy)
        ensures
            p.network@ == deny_all(),
            p.file@.len() == 0,
            p.file.base_dir() == seq!['/'],
    {
        Policy::default()
    }

    /// The policy with the given network side, which denies no file.
    pub fn with_network(network: NetworkPolicy) -> (p: Policy)
        ensures
            p.network == network,
            p.file@.len() == 0,
            p.file.base_dir() == seq!['/'],
    {
        Policy { network, file: FilePolicy::new() }
    }

    /// Whether the policy restricts nothing, so that no filter is needed.
    pub fn is_unrestricted(&self) -> (b: bool)
        ensures
            b == (self.network@ is All && self.file@.len() == 0),
    {
        self.network.is_allow_all() && self.file.denied_paths.len() == 0
    }
}

} // verus!
