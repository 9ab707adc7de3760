[package]
name = "agent_workflow"
version = "0.1.0"
edition = "2021"
publish = false

[dependencies]
tokio = { version = "1", features = ["rt-multi-thread", "sync", "time"] }
tracing = "0.1"
uuid = { version = "1", features = ["v7"] }
