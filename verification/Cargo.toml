[package]
name = "xummary"
version = "0.1.0"
edition = "2021"
publish = false

[dependencies]
aes = "0.8"
cbc = { version = "0.1", features = ["block-padding", "alloc"] }
pbkdf2 = "0.12"
hmac = "0.12"
sha1 = "0.10"
chrono = "0.4"
unicode-width = "0.2"
anyhow = "1"
serde = { version = "1", features = ["derive"] }
serde_json = "1"
tokio = { version = "1", features = ["rt-multi-thread", "macros", "sync", "process", "io-util", "time"] }
clap = { version = "4", features = ["derive", "env"] }
crossterm = "0.28"
ratatui = "0.29"
directories = "5"
reqwest = { version = "0.12", default-features = false, features = ["rustls-tls", "gzip", "brotli"] }
rusqlite = { version = "0.32", features = ["bundled"] }
security-framework = "3"
