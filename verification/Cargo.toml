[package]
name = "timeblock_calendar"
version = "0.1.0"
edition = "2021"
publish = false

[dependencies]
anyhow = "1"
base64 = "0.22"
chrono = { version = "0.4", features = ["serde"] }
rmcp = { version = "*", features = ["server", "transport-io"] }
rusqlite = { version = "*", features = ["bundled"] }
schemars = "*"
serde = { version = "1", features = ["derive"] }
serde_json = "1"
sha2 = "0.10"
thiserror = "*"
tokio = { version = "1", features = ["macros", "rt-multi-thread", "io-std"] }
uuid = { version = "1", features = ["v4"] }
