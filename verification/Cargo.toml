[package]
name = "ballista_client_pool"
version = "0.1.0"
edition = "2021"
publish = false

[dependencies]
async-trait = "0.1"
dashmap = "6"
datafusion = { version = "46", default-features = false }
log = "0.4"
pyo3 = { version = "0.20", features = ["extension-module"] }
tokio = { version = "1", features = ["rt-multi-thread", "sync", "time"] }
