[package]
name = "chronobot"
version = "0.1.0"
edition = "2021"
publish = false

[dependencies]
rand = "=0.10.3"
anyhow = "=1.0.104"
clap = { version = "=4.6.7", features = ["derive"] }
tokio = { version = "=1.54.1", features = ["rt-multi-thread", "macros", "sync", "time"] }
futures = "=0.3.34"
dotenvy = "=0.15.7"
chrono = "=0.4.45"
serenity = { version = "=0.12.5", default-features = false, features = ["builder", "client", "gateway", "model", "http", "rustls_backend"] }
polars = { version = "=0.55.2", default-features = false, features = ["csv"] }
convert_case = "=0.12.0"
