[package]
name = "hud_proxy"
version = "0.1.0"
edition = "2021"
publish = false

[dependencies]
base64 = "=0.22.1"
hex = "=0.4.3"
sha1 = "=0.10.7"
hudsucker = "=0.25.0"
reqwest = { version = "=0.12.28", default-features = false, features = ["rustls-tls"] }
http-body-util = "0.1"
tokio = { version = "1", features = ["rt-multi-thread", "macros", "signal", "sync"] }
rcgen = "*"
rustls-pemfile = "2"
log = "0.4"
env_logger = "0.11"
