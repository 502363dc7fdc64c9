[package]
name = "kvs_streamer"
version = "0.1.0"
edition = "2021"
publish = false

[dependencies]
anyhow = "1"
async-executor = "1"
async-std = "1"
async-tls = "*"
aws-credential-types = { version = "1", features = ["hardcoded-credentials"] }
aws-sdk-kinesisvideo = { version = "1" }
aws-sigv4 = { version = "1", features = ["sign-http", "http0-compat"] }
aws-smithy-runtime-api = { version = "1", features = ["client"] }
chrono = "0.4"
clap = { version = "4", features = ["derive"] }
dotenv = "*"
env_logger = "*"
futures-lite = "*"
h264-reader = "*"
http = "0.2"
httparse = "1"
jpeg-decoder = "*"
log = "0.4"
opencv = { version = "*", default-features = false, features = ["videoio"] }
openh264 = "*"
serde = { version = "1", features = ["derive"] }
serde_json = "1"
tokio = { version = "1", features = ["rt", "net", "time"] }
uuid = { version = "1", features = ["v4"] }
webm-iterable = "*"
