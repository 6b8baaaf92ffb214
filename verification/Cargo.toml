[package]
name = "external_dns_webhook_timeweb"
version = "0.6.0"
edition = "2021"
publish = false

[dependencies]
axum = "0.8"
futures-util = "0.3"
humantime = "2"
regex = "1"
reqwest = { version = "0.12", default-features = false, features = ["json", "stream", "rustls-tls"] }
serde = { version = "1", features = ["derive"] }
serde_json = "1"
thiserror = "2"
tokio = { version = "1", features = ["macros", "net", "rt-multi-thread", "signal", "sync"] }
tracing = "0.1"
tracing-subscriber = { version = "0.3", features = ["env-filter"] }
url = "2"
