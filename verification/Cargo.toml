[package]
name = "wikijobs"
version = "0.1.0"
edition = "2021"
publish = false

[dependencies]
unicode-segmentation = "*"
num_cpus = "*"
serde = { version = "*", features = ["derive"] }
serde_json = "*"
clap = { version = "*", features = ["derive"] }
tokio = { version = "*", features = ["fs", "io-util", "net", "rt-multi-thread", "sync", "signal", "macros"] }
tokio-util = { version = "*", features = ["codec"] }
futures = "*"
