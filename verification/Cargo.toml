[package]
name = "discord_message_parser"
version = "0.1.0"
edition = "2021"
publish = false

[dependencies]
chrono = { version = "=0.4.45", default-features = false, features = ["clock", "std"] }
serenity = { version = "=0.12.5", default-features = false, features = ["builder", "client", "framework", "gateway", "model", "rustls_backend", "standard_framework", "utils"] }
tokio = { version = "=1.54.1", features = ["macros", "rt-multi-thread", "time"] }

[dev-dependencies]
regex = "1"
