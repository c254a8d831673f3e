[package]
name = "tabular_state"
version = "0.1.0"
edition = "2021"
publish = false

[dependencies]
axum = "0.7"
serde_json = "1"
tokio = { version = "1", features = ["macros", "net", "rt-multi-thread", "sync"] }
