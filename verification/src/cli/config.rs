//! The content of a configuration file.

use vstd::prelude::*;
use crate::error::{is_entry_error, MoriError};
use crate::net::parser::{names, parsed};
use crate::policy::net::{deny_all, NetworkPolicy, PolicyView};

verus! {

/// What the `allow` key of the network table holds: a switch for
/// everything or nothing, or a list of entries.
#[derive(Debug)]
pub enum AllowConfig {
    Boolean(bool),
    Entries(Vec<String>),
}

impl Default for AllowConfig {
    fn default() -> (c: AllowConfig)
        ensures
            c == AllowConfig::Boolean(false),
    {
        AllowConfig::Boolean(false)
    }
}

/// The network table.
#[derive(Debug)]
pub struct NetworkConfig {
    /// What the child may connect to.
    pub allow: AllowConfig,
}

impl Default for NetworkConfig {
    fn default() -> (c: NetworkConfig)
        ensures
            c.allow == AllowConfig::Boolean(false),
    {
        NetworkConfig { allow: AllowConfig::Boolean(false) }
    }
}

/// The file table.
#[derive(Debug)]
pub struct FileConfig {
    /// Paths that the child may neither read nor write.
    pub deny: Vec<String>,
    /// Paths that the child may not read.
    pub deny_read: Vec<String>,
    /// Paths that the child may not write.
    pub deny_write: Vec<String>,
}

impl Default for FileConfig {
    fn default() -> (c: FileConfig)
        ensures
            c.deny@.len() == 0,
            c.deny_read@.len() == 0,
            c.deny_write@.len() == 0,
    {
        FileConfig { deny: Vec::new(), deny_read: Vec::new(), deny_write: Vec::new() }
    }
}

/// A configuration file.
#[derive(Debug)]
pub struct ConfigFile {
    pub network: NetworkConfig,
    pub file: FileConfig,
}

impl Default for ConfigFile {
    fn default() -> (c: ConfigFile)
        ensures
            c.network.allow == AllowConfig::Boolean(false),
            c.file.deny@.len() == 0,
            c.file.deny_read@.len() == 0,
            c.file.deny_write@.len() == 0,
    {
        ConfigFile { network: NetworkConfig::default(), file: FileConfig::default() }
    }
}

/// Whether `r` is the network policy that `allow` asks for: everything for
/// `true`, nothing for `false`, what its entries name for a list, and where
/// one of them is refused, the error for the first such entry.
pub open spec fn is_policy_of(allow: AllowConfig, r: Result<NetworkPolicy, MoriError>) -> bool {
    match allow {
        AllowConfig::Boolean(all) => r is Ok && r->Ok_0@ == (if all {
            PolicyView::All
        } else {
            deny_all()
        }),
        AllowConfig::Entries(entries) => match parsed(names(entries@)) {
            Ok(rules) => r is Ok && r->Ok_0@ == PolicyView::Entries(rules),
            Err((i, f)) => r is Err && 0 <= i < entries@.len() && is_entry_error(
                r->Err_0,
                entries@[i]@,
                f,
            ),
        },
    }
}

impl ConfigFile {
    /// The network policy that the file asks for.
    pub fn to_policy(&self) -> (r: Result<NetworkPolicy, MoriError>)
        ensures
            is_policy_of(self.network.allow, r),
    {
        match &self.network.allow {
            AllowConfig::Boolean(allow_all) => Ok(NetworkPolicy::from_allow_all(*allow_all)),
            AllowConfig::Entries(entries) => NetworkPolicy::from_entries(entries.as_slice()),
        }
    }
}

} // verus!
