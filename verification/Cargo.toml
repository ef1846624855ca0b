[package]
name = "arxiv-search-rs-mcp-core"
version = "0.1.0"
edition = "2021"
publish = false

[dependencies]
pdf-inspector = "*"
regex = "1"
serde = { version = "1", features = ["derive"] }
serde_json = "1"
thiserror = "2"
anyhow = "1"
async-trait = "0.1"
tokio = { version = "1", features = ["full"] }
tokio-util = "0.7"
reqwest = { version = "0.12", default-features = false, features = ["rustls-tls"] }
rusqlite = { version = "*", features = ["bundled"] }
directories = "*"
axum = "0.8"
clap = { version = "4", features = ["derive", "env"] }
rmcp = "*"
tracing = "0.1"
tracing-subscriber = { version = "0.3", features = ["env-filter"] }
aws-config = { version = "1", features = ["behavior-version-latest"] }
aws-sdk-s3 = "1"
