[package]
name = "simple_mdns"
version = "0.1.0"
edition = "2021"
publish = false

[dependencies]
tokio = { version = "1", features = ["net", "rt", "rt-multi-thread", "macros"] }
nix = { version = "0.26", features = ["socket", "net", "uio"] }
if-addrs = "*"
hostname = "*"
libc = "*"
