[package]
name = "epub_mgr"
version = "0.1.0"
edition = "2021"
publish = false

[dependencies]
clap = { version = "4", features = ["derive"] }
epub = "=2.1.6"
jwalk = "=0.8.1"
reqwest = { version = "=0.12.28", default-features = false, features = ["blocking", "json", "rustls-tls"] }
rustix = { version = "=1.1.6", features = ["fs"] }
serde = { version = "1", features = ["derive"] }
serde_json = "=1.0.154"
urlencoding = "=2.1.3"
zip = { version = "=8.6.0", default-features = false, features = ["deflate"] }
