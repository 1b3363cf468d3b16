[package]
name = "stark_101"
version = "0.1.0"
edition = "2021"
publish = false

[dependencies]
alloy = { version = "*", default-features = false }
chrono = "0.4"
rand_core = { version = "0.6", features = ["getrandom"] }
rayon = "1"
rs_merkle = "1"
sha256 = { version = "1", default-features = false }
subtle = "2"
tracing = "0.1"
tracing-appender = "0.2"
tracing-core = "0.1"
tracing-subscriber = { version = "0.3", features = ["env-filter", "chrono"] }
