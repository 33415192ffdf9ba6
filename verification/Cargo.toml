[package]
name = "licenses_core"
version = "0.1.0"
edition = "2021"
publish = false

[dependencies]
aws-config = "*"
aws-sdk-dynamodb = "*"
chrono = { version = "*", features = ["serde"] }
lambda_runtime = "*"
serde = { version = "*", features = ["derive"] }
serde_json = "*"
thiserror = "*"
tokio = { version = "*", features = ["macros", "rt"] }
tracing = "*"
uuid = { version = "*", features = ["serde"] }
