[package]
name = "mori"
version = "0.1.0"
edition = "2021"
publish = false

[dependencies]
async-trait = "*"
aya = "*"
aya-log = "*"
clap = { version = "*", features = ["derive"] }
env_logger = "*"
hickory-resolver = "*"
libc = "*"
log = "*"
nix = { version = "*", features = ["process", "signal", "fs"] }
serde = { version = "*", features = ["derive"] }
thiserror = "*"
tokio = { version = "*", features = ["rt-multi-thread", "macros", "sync", "time", "process"] }
toml = "*"
