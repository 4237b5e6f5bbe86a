[package]
name = "admissions"
version = "0.1.0"
edition = "2021"
publish = false

[dependencies]
axum = { version = "=0.8.9", features = ["multipart"] }
chrono = "=0.4.45"
csv = "=1.4.0"
dotenvy = "=0.15.7"
mime_guess = "=2.0.5"
serde = { version = "=1.0.229", features = ["derive"] }
serde_json = "=1.0.154"
sqlx = { version = "=0.9.0", default-features = false, features = ["runtime-tokio", "sqlite", "chrono", "migrate"] }
tokio = { version = "=1.54.1", features = ["rt-multi-thread", "macros", "net", "sync"] }
tower-http = { version = "=0.7.1", features = ["cors"] }
tracing-subscriber = "=0.3.23"
