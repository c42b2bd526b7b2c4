[package]
name = "vecdb"
version = "0.1.0"
edition = "2021"
publish = false

[dependencies]
anyhow = "1"
aprender-rag = "*"
clap = { version = "4", features = ["derive"] }
qdrant-client = { version = "1", default-features = false, features = ["serde"] }
serde = { version = "1", features = ["derive"] }
serde_json = "1"
thiserror = "*"
tokio = { version = "1", features = ["macros", "rt-multi-thread"] }
tracing-subscriber = { version = "0.3", features = ["env-filter"] }
