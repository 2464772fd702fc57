[package]
name = "neatnet"
version = "0.1.0"
edition = "2021"
publish = false

[dependencies]
arrow = { version = "=59.3.2", default-features = false }
dhat = "=0.3.3"
env_logger = "=0.11.11"
geo = "=0.33.1"
geo-traits = "=0.3.0"
geo-types = "=0.7.20"
geoarrow = "=0.9.0"
indicatif = "=0.18.6"
log = "=0.4.35"
parquet = { version = "=59.3.2", default-features = false, features = ["arrow"] }
pyo3 = { version = "=0.30.1", features = ["abi3-py311", "extension-module"] }
pyo3-arrow = { version = "=0.20.0", default-features = false }
rayon = "=1.12.0"
thiserror = "=2.0.21"
wkt = "=0.14.0"
