[package]
name = "key_set"
version = "0.2.0"
edition = "2021"
publish = false

[dependencies]
ark-serialize = { version = "=0.3.0", features = ["derive"] }
bincode = "=1.3.3"
committable = "*"
serde = { version = "=1.0.229", features = ["derive"] }
serde_with = "=3.24.0"
snafu = "=0.7.5"
