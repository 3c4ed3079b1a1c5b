[package]
name = "dam"
version = "0.5.0"
edition = "2021"
publish = false

[dependencies]
aes-gcm = "0.10"
base64 = "0.22"
chrono = "0.4"
clap = { version = "4", features = ["derive"] }
flate2 = "1"
glob = "0.3"
keyring = { version = "3", features = ["linux-native"] }
pbkdf2 = "0.12"
rand = "0.8"
reqwest = { version = "0.12", default-features = false, features = ["blocking", "json", "rustls-tls"] }
rpassword = "7"
serde = { version = "1", features = ["derive"] }
serde_json = "1"
sha2 = "0.10"
tar = "0.4"
zip = { version = "0.6", default-features = false, features = ["deflate"] }
