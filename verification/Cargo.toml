[package]
name = "pg_deltax"
version = "0.1.0"
edition = "2021"
publish = false

[dependencies]
serde_json = "1"
cardinality-estimator = { version = "1", features = ["with_serde"] }
memmap2 = "0.9"
pgrx = { version = "0.16", default-features = false, features = ["pg17"] }
