[package]
name = "libp2prs-kad"
version = "0.1.0"
edition = "2021"
publish = false

[dependencies]
async-std = "=1.13.2"
fnv = "=1.0.7"
futures = "=0.3.34"
libp2prs-core = "=0.2.2"
libp2prs-swarm = { version = "=0.2.2", features = ["async-std"] }
libp2prs-traits = "=0.2.2"
log = "=0.4.35"
smallvec = "=1.16.4"
