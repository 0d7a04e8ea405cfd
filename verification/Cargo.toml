[package]
name = "rust_web"
version = "0.1.0"
edition = "2021"
publish = false

[dependencies]
axum = "=0.7.9"
axum-server = { version = "=0.7.3", default-features = false, features = ["tls-rustls-no-provider"] }
log = "=0.4.34"
log4rs = "=1.4.0"
serde = { version = "=1.0.229", features = ["derive"] }
tokio = { version = "=1.53.2", features = ["full"] }
tower-http = { version = "=0.5.2", features = ["fs"] }
