[package]
name = "fmad"
version = "0.1.0"
edition = "2021"
publish = false

[dependencies]
serenity = "0.12"
tokio = { version = "1", features = ["macros", "rt-multi-thread", "sync"] }
serde = { version = "1", features = ["derive"] }
csv = "1"
chrono = "0.4"
dotenv = "0.15"
log = "0.4"
serialport = { version = "4", default-features = false }
