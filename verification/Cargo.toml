[package]
name = "shiori"
version = "0.1.0"
edition = "2021"
publish = false

[dependencies]
ammonia = "4"
anyhow = "1"
askama = "0.12"
axum = { version = "0.7", features = ["multipart"] }
chrono = { version = "0.4", default-features = false, features = ["clock", "std"] }
genanki-rs = "*"
html2text = "0.12"
pdf-extract = "*"
reqwest = { version = "0.12", default-features = false, features = ["json"] }
rusqlite = { version = "*", features = ["bundled"] }
sanitize-filename = "0.5"
serde = { version = "1", features = ["derive"] }
serde_json = "1"
sha2 = "0.10"
tempfile = "3"
tokio = { version = "1", features = ["rt-multi-thread", "macros", "net", "fs", "io-util"] }
tower-http = { version = "0.5", features = ["fs", "trace"] }
tracing = "0.1"
tracing-subscriber = { version = "0.3", features = ["env-filter"] }
ureq = { version = "3", default-features = false, features = ["json"] }
zip = { version = "2", default-features = false, features = ["deflate"] }
