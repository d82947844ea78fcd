[package]
name = "home_proxy"
version = "0.1.0"
edition = "2021"
publish = false

[dependencies]
android_logger = "0.14"
anyhow = "1"
chacha20poly1305 = "0.10"
env_logger = { version = "0.11", default-features = false, features = ["auto-color", "humantime"] }
hmac = "0.12"
jni = "0.21"
libc = "0.2"
log = "0.4"
prost = "0.13"
rumqttc = "0.24"
sha2 = "0.10"
tokio = { version = "1", features = ["full"] }
uuid = { version = "1", features = ["v4"] }
windows-service = "0.7"
