[package]
name = "demo_app"
version = "0.1.0"
edition = "2021"
publish = false

[dependencies]
serde = { version = "1", features = ["derive"] }
serde_json = "1"
tokio = { version = "1", features = ["rt-multi-thread", "macros", "process", "fs"] }
reqwest = { version = "0.12", default-features = false, features = ["json"] }
tracing = "0.1"
sea-orm = { version = "1", default-features = false }
async-trait = "0.1"
