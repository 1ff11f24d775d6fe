//! Policy assembly, DNS-driven allow-set maintenance and the decision logic
//! of a process sandbox that confines outbound IPv4 connections and file
//! opens of one child command.

pub mod addr;
pub mod cli;
pub mod error;
pub mod net;
pub mod policy;
pub mod runtime;
