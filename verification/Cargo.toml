[package]
name = "example-cli"
version = "0.1.0"
edition = "2021"
publish = false

[dependencies]
anyhow = "=1.0.104"
axum = "=0.8.9"
clap = { version = "=4.6.7", features = ["derive"] }
http = "=1.5.0"
hyper = { version = "=1.12.0", features = ["server", "http1"] }
tower-service = "=0.3.3"
wasip2 = "=1.0.4"
wit-bindgen = "=0.57.1"
wstd = "=0.6.8"
wstd-axum = "=0.6.8"
