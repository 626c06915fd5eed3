[package]
name = "path_server"
version = "0.1.0"
edition = "2021"
publish = false

[dependencies]
hyper = { version = "0.14", features = ["http1", "server", "tcp"] }
tokio = { version = "1", features = ["rt", "rt-multi-thread", "sync", "macros", "time"] }
serde = { version = "1", features = ["derive"] }
serde_json = "1"
image = "0.24"
clap = { version = "4", features = ["cargo"] }
simplelog = "0.12"
log = "0.4"
lazy_static = "1"
