[package]
name = "rsy"
version = "0.1.0"
edition = "2021"
publish = false

[dependencies]
anyhow = "1"
blake3 = "1"
byteorder = "1"
clap = { version = "4", features = ["derive"] }
crossbeam-channel = "0.5"
crossterm = "0.28"
filetime = "0.2"
jwalk = "0.8"
libc = "0.2"
memmap2 = "0.9"
nix = { version = "0.29", features = ["fs", "user"] }
ratatui = "0.29"
rayon = "1"
rustc-hash = "2"
tracing = "0.1"
tracing-subscriber = { version = "0.3", features = ["env-filter"] }
