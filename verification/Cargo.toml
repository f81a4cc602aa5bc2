[package]
name = "axon_core"
version = "0.1.0"
edition = "2021"
publish = false

[dependencies]
base64 = "0.22"
libc = "0.2"
nix = { version = "0.29", features = ["event", "fs", "mman", "net", "socket"] }
quick-xml = "0.36"
quinn = "0.11"
rcgen = "0.13"
reqwest = { version = "0.12", default-features = false, features = ["json", "rustls-tls"] }
ring = "0.17"
rustls = "0.23"
serde = { version = "1", features = ["derive"] }
socket2 = "0.5"
tokio = { version = "1", features = ["rt-multi-thread", "time", "sync", "macros", "net"] }
zeroize = "1"
zstd = "0.13"
