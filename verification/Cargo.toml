[package]
name = "smg"
version = "0.1.0"
edition = "2021"
publish = false

[dependencies]
anyhow = "=1.0.104"
async-trait = "=0.1.92"
axum = { version = "=0.8.9", default-features = false, features = ["json"] }
bincode = "=1.3.3"
bytes = "=1.12.1"
dashmap = "=6.2.1"
futures = "=0.3.34"
http = "=1.5.0"
parking_lot = "=0.12.5"
rmcp = { version = "=1.8.0", default-features = false }
serde = { version = "=1.0.229", features = ["derive"] }
serde_json = "=1.0.154"
sha2 = "=0.11.1"
tempfile = "=3.27.0"
tokio = { version = "=1.54.1", features = ["rt", "rt-multi-thread", "macros", "sync", "time", "net"] }
tokio-stream = "=0.1.19"
tonic = { version = "=0.14.9", features = ["gzip"] }
tracing = "=0.1.44"
uuid = { version = "=1.29.0", features = ["v4"] }
zip = { version = "=8.6.0", default-features = false, features = ["deflate"] }
