[package]
name = "ksh"
version = "0.1.0"
edition = "2021"
publish = false

[dependencies]
cid = "0.11"
multihash = "0.19"
multihash-codetable = { version = "0.2", features = ["sha2"] }
sled = "0.34"
anyhow = "1"
async-trait = "0.1"
bytes = "1"
env_logger = { version = "0.11", default-features = false }
futures = "0.3"
log = "0.4"
tokio = { version = "1", features = ["rt-multi-thread", "macros", "net", "io-util", "time"] }
libp2p = { version = "0.54", features = ["tokio", "tcp", "noise", "yamux", "dns", "kad", "identify", "ping", "mdns", "request-response", "macros"] }
