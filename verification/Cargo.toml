[package]
name = "napqes"
version = "0.1.0"
edition = "2021"
publish = false

[dependencies]
hmac = "0.12"
sha2 = "0.10"
subtle = "2"
rand = "0.8"
base64 = "0.22"
hkdf = "0.12"
pqcrypto-frodo = "*"
pqcrypto-traits = "*"
x25519-dalek = { version = "2", features = ["static_secrets"] }
serde = { version = "1", features = ["derive"] }
serde_json = "1"
clap = { version = "4", features = ["derive"] }
tokio = { version = "1", features = ["full"] }
