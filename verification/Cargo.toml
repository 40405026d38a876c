[package]
name = "time_scheduler"
version = "0.1.0"
edition = "2021"
publish = false

[dependencies]
fastrand = "*"
clap = { version = "*", features = ["derive"] }
serde = { version = "*", features = ["derive"] }
serde_json = "*"
thiserror = "*"
ordered-float = "*"
modern-multiset = "*"
