[package]
name = "ptx"
version = "0.1.0"
edition = "2021"
publish = false

[dependencies]
sha2 = "=0.10.9"
scraper = "=0.29.0"
serde = { version = "=1.0.229", features = ["derive"] }
serde_json = "=1.0.154"
toml = "=1.1.8"
ankit-builder = "=0.1.0"

[dev-dependencies]
rusqlite = { version = "=0.38.0", features = ["bundled"] }
zip = { version = "=7.4.0", default-features = false, features = ["deflate"] }
tempfile = "=3.27.0"
