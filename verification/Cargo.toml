[package]
name = "lychee_worker"
version = "0.1.0"
edition = "2021"
publish = false

[dependencies]
base64 = "0.22"
ctrlc = "3"
dashmap = "6"
ext-php-rs = "*"
futures-util = "0.3"
libc = "0.2"
serde_json = "1"
sha1 = "0.10"
socket2 = { version = "0.5", features = ["all"] }
tokio = { version = "1", features = ["full"] }
tokio-tungstenite = "0.21"
