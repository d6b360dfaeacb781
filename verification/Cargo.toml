[package]
name = "breakwater"
version = "0.1.0"
edition = "2021"
publish = false

[dependencies]
tokio = { version = "1", features = ["full"] }
clap = { version = "4", features = ["derive"] }
env_logger = "0.10"
log = "0.4"
simple_moving_average = "*"
thiserror = "1"
