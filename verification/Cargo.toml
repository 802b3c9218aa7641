[package]
name = "shuffly"
version = "0.1.0"
edition = "2021"
publish = false

[dependencies]
rand = "0.9"
tokio = { version = "1", features = ["fs", "io-util", "macros", "rt-multi-thread"] }
async-compression = { version = "0.4", features = ["tokio", "gzip"] }
clap = { version = "4", features = ["derive"] }
