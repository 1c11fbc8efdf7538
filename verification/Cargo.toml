[package]
name = "ride_range"
version = "0.1.0"
edition = "2021"
publish = false

[dependencies]
chrono = "*"
anyhow = "*"
serde = { version = "*", features = ["derive"] }
serde_json = "*"
tokio = { version = "*", features = ["macros", "rt-multi-thread"] }
lambda_runtime = "*"
aws-config = "*"
aws-sdk-dynamodb = "*"
