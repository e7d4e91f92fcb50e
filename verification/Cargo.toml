[package]
name = "schema_harvester"
version = "0.1.0"
edition = "2021"
publish = false

[dependencies]
uuid-simd = "0.8"
serde = { version = "1", features = ["derive"] }
serde_json = "1"
clap = { version = "4", features = ["derive"] }
anyhow = "1"
tokio = { version = "1", features = ["full"] }
futures = "0.3"
rdkafka = "*"
config = "*"
tracing = "0.1"
tracing-subscriber = { version = "0.3", features = ["env-filter", "json"] }
hyper = { version = "1", features = ["http1", "server"] }
hyper-util = { version = "0.1", features = ["tokio", "service"] }
http = "1"
http-body-util = "0.1"
tower = { version = "*", features = ["util"] }
bytes = "1"
