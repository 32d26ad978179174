[package]
name = "cochange"
version = "0.1.0"
edition = "2021"
publish = false

[dependencies]
hex = "*"
gix = "*"
tokio = { version = "*", features = ["rt", "rt-multi-thread", "process", "io-util", "sync", "time", "macros"] }
dashmap = "*"
rayon = "*"
anyhow = "*"
