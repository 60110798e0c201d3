[package]
name = "f3dx_cache"
version = "0.0.4"
edition = "2021"
publish = false

[dependencies]
blake3 = "=1.8.7"
pyo3 = { version = "=0.24.2", features = ["abi3-py39", "extension-module"] }
redb = "=2.6.4"
serde = { version = "=1.0.229", features = ["derive"] }
serde_json = { version = "=1.0.154", features = ["preserve_order"] }
thiserror = "=2.0.21"

[dev-dependencies]
tempfile = "=3.27.0"
