[package]
name = "guugle"
version = "0.1.0"
edition = "2021"
publish = false

[dependencies]
rusqlite = { version = "*", features = ["bundled"] }
hyper = { version = "0.14", features = ["full"] }
hyper-tls = "0.5"
tokio = { version = "1", features = ["rt-multi-thread", "macros"] }
clap = { version = "3", features = ["derive"] }

[dev-dependencies]
uuid = { version = "1", features = ["v4"] }
