[package]
name = "tix_api"
version = "0.1.0"
edition = "2021"
publish = false

[dependencies]
rand = "=0.8.8"
uuid = { version = "=1.27.0", features = ["v4"] }
time = "=0.3.55"
time-tz = "=2.0.0"
axum = "0.7"
tokio = { version = "1", features = ["rt-multi-thread", "macros", "net"] }
serde = { version = "1", features = ["derive"] }
serde_json = "1"
lettre = { version = "0.11", default-features = false, features = ["smtp-transport", "builder", "tokio1", "hostname", "pool"] }

[dev-dependencies]
encoding_rs = "=0.8.42"
csv = "=1.4.0"
rust_decimal = "=1.43.0"
