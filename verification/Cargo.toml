[package]
name = "pathvein"
version = "0.1.0"
edition = "2021"
publish = false

[dependencies]
dashmap = "6"
globset = "0.4"
ignore = "0.4"
lru = "0.12"
pyo3 = { version = "0.22", features = ["extension-module", "abi3-py38"] }
serde = { version = "1", features = ["derive"] }
serde_json = "1"
smallvec = "1"
