[package]
name = "events_analyser"
version = "0.1.0"
edition = "2021"
publish = false

[dependencies]
num = "0.4"
plotly = "*"
serde = { version = "1", features = ["derive"] }
serde_json = "1"
thiserror = "2"
tracing = "0.1"
