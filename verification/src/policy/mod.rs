//! The policy that a run enforces: what the child may connect to and which
//! files it may not open.

pub mod file;
pub mod model;
pub mod net;
