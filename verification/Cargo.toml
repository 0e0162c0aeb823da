[package]
name = "proof_terminal"
version = "0.1.0"
edition = "2021"
publish = false

[dependencies]
anyhow = "1"
crossbeam-channel = "0.5"
dirs = "*"
rusqlite = { version = "*", features = ["bundled"] }
rustls = { version = "0.23", default-features = false, features = ["ring", "std", "tls12"] }
serde = { version = "1", features = ["derive"] }
serde_json = "1"
smol = "2"
tungstenite = { version = "0.26", features = ["rustls-tls-webpki-roots"] }
ureq = "2"
