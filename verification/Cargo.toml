[package]
name = "filemanager"
version = "0.1.0"
edition = "2021"
publish = false

[dependencies]
uuid = { version = "1", features = ["v4"] }
serde = { version = "1", features = ["derive"] }
serde_json = "1"
json-patch = "*"
aws-sdk-s3 = "*"
chrono = "*"
