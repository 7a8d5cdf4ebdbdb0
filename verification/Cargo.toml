[package]
name = "bunker"
version = "1.1.0"
edition = "2021"
publish = false

[dependencies]
anyhow = "1"
argon2 = "0.5"
base64 = "0.22"
chacha20poly1305 = "0.10"
chrono = { version = "0.4", features = ["serde"] }
clap = { version = "4", features = ["derive"] }
clipboard = "0.5"
colored = "2"
dialoguer = "0.11"
dirs = "5"
flate2 = "1"
git2 = { version = "0.19", default-features = false }
hex = "0.4"
qrcode = { version = "0.14", default-features = false }
rand = "0.8"
regex = "1"
serde = { version = "1", features = ["derive"] }
serde_json = "1"
sha2 = "0.10"
skim = "0.10"
tar = "0.4"
thiserror = "1"
tokio = { version = "1", features = ["rt-multi-thread", "macros"] }
toml = "0.8"
uuid = { version = "1", features = ["v4", "serde"] }
zeroize = { version = "1", features = ["derive"] }
