[package]
name = "docker-log-driver"
version = "0.1.0"
edition = "2021"
publish = false

[dependencies]
async-trait = "0.1"
axum = "0.6"
chrono = { version = "0.4", default-features = false, features = ["std", "serde"] }
envconfig = "0.10"
hyper = { version = "0.14", features = ["server", "http1", "stream"] }
reqwest = { version = "0.11", default-features = false, features = ["json"] }
serde = { version = "1", features = ["derive"] }
serde_json = "1"
tokio = { version = "1", features = ["fs", "io-util", "macros", "net", "rt-multi-thread", "sync"] }
tokio-stream = { version = "0.1", features = ["net"] }
tracing = "0.1"
tracing-subscriber = { version = "0.3", features = ["env-filter", "json"] }

[dev-dependencies]
prost = { version = "0.11", default-features = false, features = ["std"] }
