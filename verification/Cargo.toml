[package]
name = "scone"
version = "0.1.0"
edition = "2021"
publish = false

[dependencies]
blake3 = "=1.8.7"
dioxus = "*"
dioxus-free-icons = { version = "*", features = ["font-awesome-solid"] }
ed25519-dalek = { version = "=2.2.0", default-features = false, features = ["alloc", "zeroize", "fast"] }
redb = "=3.1.3"
serde_json = "=1.0.154"
thiserror = "=2.0.21"
tokio = { version = "=1.54.1", features = ["rt", "macros"] }
tracing = "=0.1.44"
