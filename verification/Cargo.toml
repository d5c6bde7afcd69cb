[package]
name = "cctalk_docs"
version = "0.1.0"
edition = "2021"
publish = false

[dependencies]
text-splitter = { version = "=0.33.1", features = ["tokenizers"] }
tokenizers = { version = "=0.23.2", default-features = false, features = ["fancy-regex"] }
regex-syntax = "=0.8.11"
pdfium-render = "=0.9.5"
fastembed = { version = "=7.5.0", default-features = false, features = ["ort-load-dynamic", "hf-hub-rustls-tls"] }
rusqlite = { version = "=0.41.1", features = ["bundled"] }
sqlite-vec = "=0.1.9"
axum = "=0.8.9"
tokio = { version = "=1.54.1", features = ["full"] }
tower-http = { version = "=0.7.1", features = ["trace", "cors"] }
tracing = "=0.1.44"
tracing-subscriber = { version = "=0.3.23", features = ["env-filter"] }
rmcp = { version = "=3.8.0", features = ["server", "macros", "transport-io", "transport-streamable-http-server"] }
serde = { version = "=1.0.229", features = ["derive"] }
serde_json = "=1.0.154"
schemars = "=1.2.3"
anyhow = "=1.0.104"
thiserror = "=2.0.21"

[dev-dependencies]
regex = "=1.13.1"
