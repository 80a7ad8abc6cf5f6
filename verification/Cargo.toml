[package]
name = "transaction"
version = "0.1.0"
edition = "2021"
publish = false

[dependencies]
bigdecimal = { version = "=0.4.11", features = ["serde"] }
chrono = { version = "=0.4.45", features = ["serde"] }
serde = { version = "=1.0.229", features = ["derive"] }
csv = "=1.4.0"
owo-colors = "=4.4.0"
futures = "=0.3.34"
futures-util = "=0.3.34"
num-traits = "=0.2.19"
sqlx = { version = "=0.8.6", default-features = false, features = ["sqlite", "runtime-tokio", "chrono", "bigdecimal", "macros"] }
