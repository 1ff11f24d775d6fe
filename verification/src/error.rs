//! The errors that the library reports.

use vstd::prelude::*;
use vstd::string::*;
use crate::addr::Ipv4;

verus! {

/// Why a network entry was refused.
#[derive(Clone, Copy, Debug, PartialEq, Eq, Structural)]
pub enum EntryFault {
    /// The entry is empty.
    EmptyValue,
    /// What follows `/` is not a number that fits in eight bits.
    InvalidCidrPrefix,
    /// The prefix length is above 32.
    CidrPrefixTooLarge,
    /// What stands before `/` is no IP address.
    InvalidCidrAddress,
    /// What stands before `/` is an IPv6 address.
    Ipv6Cidr,
    /// The entry, or its host part, is an IPv6 address.
    Ipv6Address,
    /// What follows the last `:` is digits that write no port number.
    InvalidPort,
}

/// The words in which a fault is reported.
pub open spec fn reason_text(fault: EntryFault) -> Seq<char> {
    match fault {
        EntryFault::EmptyValue => "empty value"@,
        EntryFault::InvalidCidrPrefix => "invalid CIDR prefix length"@,
        EntryFault::CidrPrefixTooLarge => "CIDR prefix length must be <= 32"@,
        EntryFault::InvalidCidrAddress => "invalid IP address in CIDR"@,
        EntryFault::Ipv6Cidr => "IPv6 CIDR is not supported"@,
        EntryFault::Ipv6Address => "IPv6 addresses are not supported"@,
        EntryFault::InvalidPort => "invalid port number"@,
    }
}

impl EntryFault {
    /// The words in which the fault is reported.
    pub fn reason(&self) -> (s: String)
        ensures
            s@ == reason_text(*self),
    {
        match self {
            EntryFault::EmptyValue => "empty value".to_owned(),
            EntryFault::InvalidCidrPrefix => "invalid CIDR prefix length".to_owned(),
            EntryFault::CidrPrefixTooLarge => "CIDR prefix length must be <= 32".to_owned(),
            EntryFault::InvalidCidrAddress => "invalid IP address in CIDR".to_owned(),
            EntryFault::Ipv6Cidr => "IPv6 CIDR is not supported".to_owned(),
            EntryFault::Ipv6Address => "IPv6 addresses are not supported".to_owned(),
            EntryFault::InvalidPort => "invalid port number".to_owned(),
        }
    }
}

/// An error of the library.
#[derive(Debug)]
pub enum MoriError {
    /// A network entry was refused; `entry` is the entry as it was given.
    InvalidAllowNetworkEntry { entry: String, reason: String },
    /// A prefix length above `max_allowed` was given for `addr`.
    InvalidCidrPrefix { addr: Ipv4, prefix_len: u8, max_allowed: u8 },
    /// A denied path does not fit the fixed-width key of the deny table.
    PathTooLong { path: String, max_len: usize },
    /// A lookup for `domain` failed.
    DnsLookup { domain: String, cause: String },
    /// An operation on the allow table failed.
    MapUpdate { cause: String },
}

/// Whether `e` reports that the entry `entry` was refused for `fault`.
pub open spec fn is_entry_error(e: MoriError, entry: Seq<char>, fault: EntryFault) -> bool {
    match e {
        MoriError::InvalidAllowNetworkEntry { entry: text, reason } => text@ == entry && reason@
            == reason_text(fault),
        _ => false,
    }
}

/// Whether `e` reports that the prefix length `prefix_len`, given for
/// `addr`, is above 32.
pub open spec fn is_prefix_error(e: MoriError, addr: Ipv4, prefix_len: u8) -> bool {
    match e {
        MoriError::InvalidCidrPrefix { addr: a, prefix_len: p, max_allowed } => a == addr && p
            == prefix_len && max_allowed == 32,
        _ => false,
    }
}

/// Whether `e` reports that the path `path` is too long for a key of
/// `max_len` bytes.
pub open spec fn is_path_too_long(e: MoriError, path: Seq<char>, max_len: usize) -> bool {
    match e {
        MoriError::PathTooLong { path: p, max_len: m } => p@ == path && m == max_len,
        _ => false,
    }
}

} // verus!
