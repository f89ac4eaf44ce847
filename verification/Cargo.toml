[package]
name = "earmuffs"
version = "0.1.0"
edition = "2021"
publish = false

[dependencies]
bsky-sdk = "*"
dotenv = "*"
serde = { version = "*", features = ["derive"] }
serde_json = "*"
tokio = { version = "*", features = ["macros", "rt-multi-thread"] }
