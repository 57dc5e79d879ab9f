[package]
name = "exchange"
version = "0.1.0"
edition = "2021"
publish = false

[dependencies]
rust_decimal = "1"
uuid = { version = "1", features = ["v4", "serde"] }
chrono = { version = "0.4", features = ["serde"] }
serde = { version = "1", features = ["derive"] }
serde_json = "1"
axum = "0.8"
tokio = { version = "1", features = ["full"] }
futures = "0.3"
jsonwebtoken = "9"
redis = { version = "*", features = ["tokio-comp", "aio"] }
rdkafka = "*"
diesel = { version = "2", features = ["postgres", "r2d2"] }
