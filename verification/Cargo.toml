[package]
name = "anc"
version = "0.1.0"
edition = "2021"
publish = false

[dependencies]
html-escape = "0.2"
serde_yaml = "0.8"
uuid = { version = "0.8", features = ["v4"] }
anki = "*"
clap = { version = "3", features = ["derive"] }
prost = "*"
rusqlite = { version = "*", features = ["bundled"] }
serde = { version = "1", features = ["derive"] }
serde_json = "1"
serde-pickle = "1"
tfio = "*"
tokio = { version = "1", features = ["rt-multi-thread"] }
toml = "0.5"
