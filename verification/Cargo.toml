[package]
name = "tarot"
version = "0.1.0"
edition = "2021"
publish = false

[dependencies]
aws-config = { version = "*", default-features = false }
aws-sdk-dynamodb = { version = "*", default-features = false }
http = "*"
image = { version = "*", default-features = false, features = ["png"] }
lambda_http = "*"
maud = "*"
qrcode = "*"
serde_json = "*"
serde_urlencoded = "*"
thiserror = "*"
tokio = { version = "*", features = ["macros", "rt-multi-thread", "sync"] }
tracing = "*"
tracing-subscriber = "*"
uuid = { version = "*", features = ["v4"] }
