[package]
name = "lbf_eval"
version = "0.1.0"
edition = "2021"
publish = false

[dependencies]
tfhe = { version = "=0.5.4", features = ["shortint", "x86_64-unix"] }
itybity = "=0.3.3"
clap = { version = "=4.6.7", features = ["derive"] }
rand = "=0.8.8"
tokio = { version = "=1.54.1", features = ["rt-multi-thread", "sync"] }
futures = "=0.3.34"

[dev-dependencies]
rayon = "=1.12.0"
