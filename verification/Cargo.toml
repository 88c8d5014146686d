[package]
name = "monitor_layout"
version = "0.1.0"
edition = "2021"
publish = false

[dependencies]
zbus = "5"
zvariant = "5"
serde = { version = "1", features = ["derive"] }
serde_json = "1"
clap = { version = "4", features = ["derive"] }
anyhow = "1"
thiserror = "2"
futures-lite = "2"
futures-util = "0.3"
async-io = "2"
async-channel = "2"
tracing = "0.1"
tracing-subscriber = { version = "0.3", features = ["env-filter"] }
