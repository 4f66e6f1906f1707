[package]
name = "scour"
version = "0.1.0"
edition = "2021"
publish = false

[dependencies]
ammonia = "=4.2.4"
anyhow = "1"
base64 = "=0.22.1"
fs2 = "0.4"
headless_chrome = "=1.0.22"
html2md = "=0.2.17"
lru = "=0.19.0"
readability = { version = "=0.3.0", default-features = false }
reqwest = { version = "=0.12.28", default-features = false, features = ["rustls-tls", "cookies", "gzip", "brotli", "http2", "charset"] }
rmcp = { version = "=3.8.0", features = ["server", "macros", "transport-io", "schemars"] }
scraper = "=0.29.0"
serde = { version = "1", features = ["derive"] }
serde_json = "1"
tokio = { version = "1", features = ["macros", "rt-multi-thread"] }
url = "=2.5.8"
