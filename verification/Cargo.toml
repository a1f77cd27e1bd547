[package]
name = "admin_sync"
version = "0.1.0"
edition = "2021"
publish = false

[dependencies]
anyhow = "*"
argon2 = "*"
chrono = "*"
clap = { version = "*", features = ["derive"] }
dotenvy = "*"
sqlx = { version = "*", features = ["runtime-tokio", "sqlite"] }
tokio = { version = "*", features = ["macros", "rt-multi-thread"] }
uuid = { version = "*", features = ["v4"] }
