[package]
name = "blockdreamer"
version = "0.1.0"
edition = "2021"
publish = false

[dependencies]
pathfinding = "*"
clap = { version = "*", features = ["derive"] }
serde = { version = "*", features = ["derive"] }
serde_json = "*"
toml = "*"
reqwest = { version = "*", default-features = false, features = ["json"] }
tokio = { version = "*", features = ["rt-multi-thread", "macros", "signal", "time", "fs", "io-util"] }
futures = "*"
