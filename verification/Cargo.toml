[package]
name = "monopack"
version = "0.1.0"
edition = "2021"
publish = false

[dependencies]
sha1 = "0.10"
crossbeam-channel = "0.5"
chrono = { version = "0.4", default-features = false, features = ["clock"] }
tokio = { version = "1", features = ["rt-multi-thread", "macros"] }
clap = { version = "4", features = ["derive"] }
bytes = "1"
