[package]
name = "mdsite"
version = "0.1.0"
edition = "2021"
publish = false

[dependencies]
anyhow = "=1.0.104"
dotenvy = "=0.15.7"
futures-util = "=0.3.34"
http-body-util = "=0.1.5"
hyper = { version = "=1.12.0", features = ["full"] }
hyper-util = { version = "=0.1.21", features = ["full"] }
markdown-ppp = { version = "=2.12.0", features = ["ast-transform"] }
notify-debouncer-full = "=0.7.0"
serde = { version = "=1.0.229", features = ["derive"] }
serde_json = "=1.0.151"
tera = "=2.4.0"
tokio = { version = "=1.53.2", features = ["full"] }
tokio-stream = { version = "=0.1.19", features = ["sync"] }
