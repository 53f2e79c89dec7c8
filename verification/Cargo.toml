[package]
name = "osunbitdb"
version = "0.1.0"
edition = "2021"
publish = false

[dependencies]
bincode = "1"
serde = { version = "1", features = ["derive"] }
serde_json = "1"
thiserror = "1"
tikv-client = "0.3"
tokio = { version = "1", features = ["rt", "macros"] }
