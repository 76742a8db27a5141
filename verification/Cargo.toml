[package]
name = "svm"
version = "0.1.0"
edition = "2021"
publish = false

[dependencies]
actix-web = { version = "4", default-features = false, features = ["macros"] }
anyhow = "1"
chrono = "0.4"
env_logger = { version = "0.11", default-features = false }
linfa = { version = "0.7", features = ["serde"] }
linfa-svm = { version = "0.7", features = ["serde"] }
log = "0.4"
ndarray = "0.15"
reqwest = { version = "0.12", default-features = false, features = ["json"] }
rustfft = "6"
serde = { version = "1", features = ["derive"] }
serde_json = "1"
tokio = { version = "1", features = ["rt", "rt-multi-thread"] }
uuid = { version = "1", features = ["v4"] }
