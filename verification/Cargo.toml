[package]
name = "sic"
version = "0.1.0"
edition = "2021"
publish = false

[dependencies]
clap = { version = "4", features = ["derive"] }
flate2 = "1"
fs2 = "0.4"
owo-colors = "=4.4.0"
reqwest = { version = "0.12", default-features = false, features = ["blocking", "rustls-tls-native-roots"] }
serde = { version = "1", features = ["derive"] }
serde_json = { version = "=1.0.154", features = ["preserve_order"] }
sha2 = "=0.10.9"
tar = "0.4"
tempfile = "3"
toml = { version = "=0.8.23", features = ["preserve_order"] }
uuid = { version = "1", features = ["v4"] }
