[package]
name = "fghj"
version = "0.1.0"
edition = "2021"
publish = false

[dependencies]
anyhow = "=1.0.104"
axum = { version = "=0.8.9", features = ["ws"] }
bollard = "=0.21.1"
clap = { version = "=4.6.7", features = ["derive"] }
futures-util = "=0.3.34"
libc = "=0.2.191"
pem = "=3.0.6"
rcgen = { version = "=0.14.10", features = ["x509-parser"] }
rusqlite = { version = "=0.41.1", features = ["bundled"] }
rustls = { version = "=0.23.46", default-features = false, features = ["ring", "std", "tls12", "logging"] }
rustls-native-certs = "=0.8.5"
rustls-pemfile = "=2.2.0"
serde = { version = "=1.0.229", features = ["derive"] }
serde_json = "=1.0.154"
serde_yaml = "=0.9.34"
sha2 = "=0.10.9"
tar = "=0.4.46"
tempfile = "=3.27.0"
tokio = { version = "=1.54.1", features = ["full"] }
tokio-rustls = { version = "=0.26.6", default-features = false, features = ["ring", "tls12", "logging"] }
tokio-tungstenite = "=0.30.0"
x509-parser = { version = "=0.18.1", features = ["verify"] }
