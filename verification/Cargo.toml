[package]
name = "runlog"
version = "0.1.0"
edition = "2021"
publish = false

[dependencies]
reqwest = { version = "*", default-features = false, features = ["json"] }
tokio = { version = "*", features = ["rt-multi-thread", "macros"] }
futures = "*"
serde = { version = "*", features = ["derive"] }
dotenv = "*"
