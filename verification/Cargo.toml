[package]
name = "empath"
version = "0.1.0"
edition = "2021"
publish = false

[dependencies]
anyhow = "1"
camino = "1"
clap = { version = "4", features = ["derive"] }
etcetera = "*"
jiff = "0.2"
pathdiff = { version = "0.2", features = ["camino"] }
sqlx = { version = "0.8", default-features = false, features = ["runtime-tokio", "sqlite"] }
tokio = { version = "1", features = ["fs", "macros", "process", "rt-multi-thread"] }
tracing-subscriber = "0.3"
