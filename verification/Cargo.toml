[package]
name = "agent_mem_db"
version = "0.1.0"
edition = "2021"
publish = false

[dependencies]
hnswx = "*"
uuid = { version = "*", features = ["v4"] }
thiserror = "*"
