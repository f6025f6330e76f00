[package]
name = "p2p_sync"
version = "0.1.0"
edition = "2021"
publish = false

[dependencies]
anyhow = "*"
base64 = "*"
chrono = "*"
dirs = "*"
hex = "*"
libp2p = { version = "*", default-features = false, features = ["ed25519"] }
rusqlite = { version = "*", features = ["bundled"] }
serde = { version = "*", features = ["derive"] }
serde_json = "*"
sha2 = "*"
toml = "*"
