//! The arguments of the command line, as plain values.

use vstd::prelude::*;

verus! {

/// What the command line gave.
#[derive(Debug)]
pub struct Args {
    /// The path of the configuration file.
    pub config: Option<String>,
    /// Hosts, with a port or not, that the child may connect to.
    pub allow_network: Vec<String>,
    /// Whether the child may connect anywhere.
    pub allow_network_all: bool,
    /// Paths that the child may neither read nor write.
    pub deny_file: Vec<String>,
    /// Paths that the child may not read.
    pub deny_file_read: Vec<String>,
    /// Paths that the child may not write.
    pub deny_file_write: Vec<String>,
    /// The command to run, with its arguments.
    pub command: Vec<String>,
}

} // verus!
