[package]
name = "spate_bench"
version = "0.1.0"
edition = "2021"
publish = false

[dependencies]
apache-avro = "=0.22.0"
rdkafka = { version = "=0.39.0", default-features = false, features = ["tokio"] }
serde = { version = "=1.0.229", features = ["derive"] }
serde_json = "=1.0.154"
sha2 = "=0.10.9"
spate-clickhouse = { version = "=0.1.0", default-features = false }
tokio = { version = "=1.54.1", features = ["full"] }
toml = "=1.1.8"
uuid = { version = "=1.29.0", features = ["v7"] }
