[package]
name = "rsummary"
version = "0.1.0"
edition = "2021"
publish = false

[dependencies]
axum = "0.6"
color-eyre = "0.6"
derive_more = "0.99"
dirs = "*"
eyre = "0.6"
knuffel = "3"
serde = { version = "1", features = ["derive"] }
tokio = { version = "1", features = ["full"] }
tracing = "0.1"
tracing-subscriber = "0.3"
xshell = "0.2"
