//! What the command line and the configuration file give, and the policy
//! that they make together.

pub mod args;
pub mod config;
pub mod loader;
