[package]
name = "straw"
version = "0.1.0"
edition = "2021"
publish = false

[dependencies]
base64 = "0.22"
bytes = "1"
ciborium = "0.2"
clap = { version = "4", features = ["derive"] }
dashmap = "6"
futures = "0.3"
h3 = "*"
h3-quinn = "*"
http = "1"
ipnet = "2"
libc = "0.2"
noq = "*"
quinn = "0.11"
rcgen = { version = "0.14", features = ["zeroize"] }
ring = "0.17"
rustls = { version = "0.23", default-features = false, features = ["ring", "std", "tls12", "logging"] }
serde = { version = "1", features = ["derive"] }
serde_bytes = "0.11"
thiserror = "2"
tokio = { version = "1", features = ["full"] }
toml = "*"
tracing = "0.1"
tracing-subscriber = { version = "0.3", features = ["env-filter"] }
tun = { version = "*", features = ["async"] }
zeroize = "1"
