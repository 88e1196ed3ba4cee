[package]
name = "remindbot"
version = "0.1.0"
edition = "2021"
publish = false

[dependencies]
chrono = "*"
telegram-bot = "*"
tokio = { version = "*", features = ["macros", "rt-multi-thread", "time", "sync"] }
futures = "*"
log = "*"
env_logger = "*"
