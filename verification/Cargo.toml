[package]
name = "atlas"
version = "0.1.0"
edition = "2021"
publish = false

[dependencies]
array-format = "=0.15.0"
async-trait = "=0.1.92"
bytes = "=1.12.1"
chrono = "=0.4.45"
futures = "=0.3.34"
indexmap = { version = "=2.14.2", features = ["serde"] }
lz4_flex = "=0.14.0"
ndarray = "=0.17.2"
numpy = "=0.30.0"
object_store = { version = "=0.13.2", features = ["fs"] }
parking_lot = "=0.13.0"
pyo3 = { version = "=0.30.1", features = ["abi3-py39"] }
rmp-serde = "=1.3.1"
serde = { version = "=1.0.229", features = ["derive"] }
serde_json = "=1.0.154"
smallvec = { version = "=1.16.4", features = ["serde"] }
smol_str = { version = "=0.3.7", features = ["serde"] }
thiserror = "=2.0.21"
tokio = { version = "=1.54.1", features = ["rt-multi-thread", "macros", "sync"] }
tracing = "=0.1.44"
tracing-subscriber = { version = "=0.3.23", features = ["env-filter"] }
zstd = "=0.14.3"
