[package]
name = "gossipping"
version = "0.1.0"
edition = "2021"
publish = false

[dependencies]
actor-helper = "=0.2.1"
anyhow = "1"
axum = { version = "0.8", default-features = false, features = ["http1", "json", "tokio"] }
bytes = "1"
capnp = "0.25"
ed25519-dalek = { version = "=3.0.0", features = ["rand_core"] }
futures-lite = "2"
hex = "=0.4.3"
iroh = { version = "=1.4.1", default-features = false, features = ["tls-ring"] }
iroh-gossip = { version = "=0.101.0", default-features = false, features = ["net"] }
rand = "=0.10.3"
serde = { version = "1", features = ["derive"] }
serde_json = "=1.0.154"
sha2 = "=0.10.9"
tokio = { version = "1", features = ["macros", "net", "rt-multi-thread", "signal", "sync", "time"] }
tokio-stream = { version = "0.1", features = ["sync"] }
tracing = "0.1"
tracing-appender = "0.2"
tracing-subscriber = { version = "0.3", features = ["env-filter"] }
