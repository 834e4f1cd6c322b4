[package]
name = "projecta"
version = "0.1.0"
edition = "2021"
publish = false

[dependencies]
rayon = "1"
csv = "1"
rusqlite = { version = "0.31", features = ["bundled"] }
serde = { version = "1", features = ["derive"] }
serde_json = "1"
walkdir = "2"
colored = "2"
rand = "0.8"
tokio = { version = "1", features = ["full"] }
reqwest = { version = "0.12", default-features = false, features = ["rustls-tls"] }
futures = "0.3"
lazy_static = "1"
thiserror = "1"

[dev-dependencies]
tempfile = "3"
