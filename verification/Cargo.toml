[package]
name = "pixelbridge"
version = "0.1.0"
edition = "2021"
publish = false

[dependencies]
config = { version = "0.13", default-features = false, features = ["yaml"] }
env_logger = "0.10"
log = "0.4"
serde = "1"
serde_derive = "1"
tokio = { version = "1", features = ["macros", "net", "rt-multi-thread", "sync"] }
