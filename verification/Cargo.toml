[package]
name = "s3s_fs"
version = "0.1.0"
edition = "2021"
publish = false

[dependencies]
md-5 = "=0.10.6"
s3s = "=0.11.1"
tokio = { version = "*", features = ["full"] }
hyper-util = { version = "*", features = ["full"] }
clap = { version = "*", features = ["derive"] }
tracing = "*"
tracing-subscriber = { version = "*", features = ["env-filter"] }
camino = "*"
async-trait = "*"
