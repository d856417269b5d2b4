[package]
name = "midenc"
version = "0.1.0"
edition = "2021"
publish = false

[dependencies]
miden-processor = "=0.20.6"
miden-core = "=0.20.6"
smallvec = "=1.16.4"
clap = "=4.6.7"
serde = { version = "=1.0.229", features = ["derive"] }
proc-macro2 = "=1.0.107"
quote = "=1.0.47"
syn = { version = "=2.0.119", features = ["full"] }
darling = "=0.20.11"
anyhow = "=1.0.104"
thiserror = "=2.0.21"
proptest = "=1.12.0"
