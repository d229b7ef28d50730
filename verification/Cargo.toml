[package]
name = "coordinate"
version = "0.1.0"
edition = "2021"
publish = false

[dependencies]
wd_tools = { version = "=0.15.2", features = ["snowflake", "uid", "time"] }
wd_log = "=0.4.0"
wd_run = "=0.5.0"
wd_event = "=0.8.4"
anyhow = "=1.0.104"
etcd-rs = "=1.0.1"
serde = { version = "=1.0.229", features = ["derive"] }
serde_json = "=1.0.154"
tokio = { version = "=1.54.1", features = ["full"] }
