[package]
name = "pms5003"
version = "0.1.0"
edition = "2021"
publish = false

[dependencies]
anyhow = "1"
aqi = "*"
bincode = "1.3"
chrono = "0.4"
clap = { version = "4", features = ["derive"] }
env_logger = "*"
futures-io = "0.3"
humantime = "2"
log = "0.4"
serialport = { version = "4", default-features = false }
thiserror = "1"
tokio = { version = "1", features = ["macros", "rt", "sync", "time"] }
tokio-stream = "0.1"
