[package]
name = "svetd"
version = "0.1.0"
edition = "2021"
publish = false

[dependencies]
artnet_protocol = "*"
rosc = "*"
crossbeam-channel = "*"
serde = { version = "*", features = ["derive"] }
serde_json = "*"
config = "*"
log = "*"
env_logger = "*"
axum = "*"
tokio = { version = "*", features = ["full"] }
socketioxide = "*"
tower-http = { version = "*", features = ["cors"] }
sysinfo = "*"
rusty_link = "*"
