[package]
name = "fas_rs"
version = "0.1.0"
edition = "2021"
publish = false

[dependencies]
anyhow = "1"
frame-analyzer = "*"
libc = "0.2"
likely_stable = "*"
log = "0.4"
nix = { version = "0.29", features = ["sched"] }
serde = { version = "1", features = ["derive"] }
toml = "0.8"
