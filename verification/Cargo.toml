[package]
name = "distribd"
version = "0.1.0"
edition = "2021"
publish = false

[dependencies]
rand = "*"
ring = "*"
uuid = { version = "*", features = ["v4"] }
serde = { version = "*", features = ["derive"] }
serde_json = "*"
chrono = "*"
anyhow = "*"
clap = { version = "*", features = ["derive"] }
figment = { version = "*", features = ["yaml", "env"] }
tokio = { version = "*", features = ["rt-multi-thread", "macros", "time", "fs", "sync", "signal", "io-util"] }
reqwest = { version = "*", default-features = false, features = ["json"] }

[dev-dependencies]
