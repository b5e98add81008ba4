[package]
name = "maildock"
version = "0.1.0"
edition = "2021"
publish = false

[dependencies]
base64 = "0.22"
encoding_rs = "0.8"
mailparse = "0.15"
rusqlite = { version = "0.32", features = ["bundled"] }
keyring = "3"
native-tls = "0.2"
imap = "2"
serde = { version = "1", features = ["derive"] }
