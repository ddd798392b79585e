[package]
name = "tar_delta"
version = "0.1.0"
edition = "2021"
publish = false

[dependencies]
anyhow = "=1.0.104"
clap = { version = "=4.6.7", features = ["derive"] }
serde = { version = "=1.0.229", features = ["derive"] }
serde_json = { version = "=1.0.154", features = ["preserve_order"] }
sha1 = "=0.10.7"
tar = "=0.4.46"
tokio = { version = "=1.54.1", features = ["macros", "rt-multi-thread"] }
