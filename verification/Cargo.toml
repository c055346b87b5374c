[package]
name = "kuiperdb"
version = "0.1.0"
edition = "2021"
publish = false

[dependencies]
sha2 = "=0.10.9"
hex = "=0.4.3"
lru = "=0.12.5"
tiktoken-rs = "=0.12.1"
petgraph = { version = "=0.6.5", default-features = false }
uuid = { version = "=1.29.0", features = ["v4"] }
chrono = { version = "=0.4.45", default-features = false, features = ["clock", "std"] }
sqlx = { version = "=0.7.4", default-features = false, features = ["runtime-tokio", "sqlite", "chrono"] }
tokio = { version = "=1.54.1", features = ["rt-multi-thread", "macros", "sync", "time", "fs", "signal"] }
serde = { version = "=1.0.229", features = ["derive"] }
serde_json = "=1.0.154"
anyhow = "=1.0.104"
hnsw_rs = "=0.1.19"
reqwest = { version = "0.12", default-features = false, features = ["json", "rustls-tls"] }
