[package]
name = "hyperbase_mqtt"
version = "0.1.0"
edition = "2021"
publish = false

[dependencies]
rumqttc = "=0.24.0"
tokio = { version = "=1.53.2", features = ["macros", "rt-multi-thread", "fs", "time", "sync"] }
clap = { version = "=4.6.7", features = ["derive"] }
uuid = { version = "=1.27.0", features = ["v7"] }

[dev-dependencies]
serde_json = "=1.0.151"
