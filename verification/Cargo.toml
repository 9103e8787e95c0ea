[package]
name = "zapive"
version = "0.1.0"
edition = "2021"
publish = false

[dependencies]
regex = "=1.13.1"
hmac = "=0.12.1"
sha2 = "=0.10.9"
chrono = "=0.4.45"
aes-gcm = "=0.10.3"
base64 = "=0.22.1"
scrypt = { version = "=0.11.0", default-features = false }
rand = "=0.9.5"
serde = { version = "=1.0.229", features = ["derive"] }
serde_json = "=1.0.154"
zeroize = "=1.9.1"
rusqlite = { version = "=0.32.1", features = ["bundled"] }
url = "=2.5.8"
qrcode = { version = "=0.14.1", default-features = false }
self_update = { version = "=1.3.3", default-features = false, features = ["ureq", "rustls", "github"] }
