[package]
name = "crdt_sync"
version = "0.1.0"
edition = "2021"
publish = false

[dependencies]
axum = { version = "=0.8.9", features = ["ws"] }
ed25519-dalek = { version = "=2.2.0", features = ["rand_core"] }
futures-util = "=0.3.34"
paste = "=1.0.15"
rmp-serde = "=1.3.1"
rusqlite = { version = "=0.41.1", features = ["bundled"] }
serde = { version = "=1.0.229", features = ["derive"] }
serde_json = { version = "=1.0.154", features = ["float_roundtrip", "unbounded_depth"] }
tokio = { version = "=1.54.1", features = ["full"] }
uuid = { version = "=1.29.0", features = ["v4"] }
wasm-bindgen = "=0.2.130"

[dev-dependencies]
rand_core = { version = "=0.6.4", features = ["getrandom"] }
