//! What runs while the child runs: the allow table of the network filter,
//! the deny table of the file filter, the refresh of resolved addresses and
//! the steps of the launcher.

pub mod cgroup;
pub mod dns;
pub mod ebpf;
pub mod file;
pub mod launcher;
pub mod macos;
pub mod rendezvous;
pub mod sync;
