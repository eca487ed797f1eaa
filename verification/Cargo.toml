[package]
name = "lanflow"
version = "0.1.0"
edition = "2021"
publish = false

[dependencies]
base64 = "=0.22.1"
blake3 = { version = "=1.8.7", features = ["rayon"] }
bytes = "=1.12.1"
chacha20poly1305 = "=0.11.0"
filetime = "=0.2.29"
futures-util = "=0.3.34"
hex = "=0.4.3"
hmac = "=0.12.1"
jwalk = "=0.8.1"
machine-uid = "=0.6.0"
mdns-sd = "=0.21.7"
opaque-ke = { version = "=4.0.1", features = ["argon2", "std"] }
prost = "=0.14.4"
rand = "=0.9.5"
rand_core = { version = "0.6", features = ["getrandom"] }
rayon = "=1.12.0"
serde = { version = "=1.0.229", features = ["derive"] }
serde_json = "=1.0.154"
sha2 = "=0.10.9"
socket2 = { version = "=0.6.5", features = ["all"] }
thiserror = "=2.0.21"
tokio = { version = "=1.54.1", features = ["full"] }
tokio-rusqlite = { version = "=0.8.0", features = ["bundled"] }
tokio-util = "=0.7.20"
uuid = { version = "=1.29.0", features = ["v4"] }
zeroize = "=1.9.1"
