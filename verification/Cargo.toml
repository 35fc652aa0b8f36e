[package]
name = "dkms"
version = "0.1.0"
edition = "2021"
publish = false

[dependencies]
aes-gcm = "0.10"
anyhow = "1"
axum = "0.7"
base64 = "0.22"
clap = { version = "4", features = ["derive", "env"] }
config = "0.14"
dashmap = "6"
hex = "0.4"
hkdf = "0.12"
hmac = "0.12"
hyper-util = { version = "0.1", features = ["full"] }
libc = "0.2"
ml-dsa = "*"
ml-kem = "0.2"
moka = { version = "0.12", features = ["future"] }
prometheus = "0.13"
rand = "0.8"
reqwest = { version = "0.12", default-features = false, features = ["json", "rustls-tls"] }
rustls = "0.23"
rustls-webpki = { version = "0.103", features = ["aws-lc-rs", "aws-lc-rs-unstable"] }
serde = { version = "1", features = ["derive"] }
serde_json = "1"
sha2 = "0.10"
tokio = { version = "1", features = ["full"] }
tokio-rustls = "0.26"
tracing = "0.1"
tracing-subscriber = { version = "0.3", features = ["env-filter"] }
uuid = { version = "1", features = ["v4"] }
x509-parser = "*"
zeroize = "1"
