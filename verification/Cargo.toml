[package]
name = "grid_indexing"
version = "0.1.0"
edition = "2021"
publish = false

[dependencies]
bincode = "=1.3.3"
geo = { version = "=0.33.1", features = ["use-serde"] }
geo-traits = "=0.3.0"
geoarrow-array = "=0.9.0"
geoarrow-schema = "=0.9.0"
numpy = "=0.30.0"
pyo3 = "=0.30.1"
pyo3-arrow = "=0.20.0"
rstar = "=0.12.2"
serde = { version = "=1.0.229", features = ["derive"] }
