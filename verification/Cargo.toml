[package]
name = "cdn_pls"
version = "0.1.0"
edition = "2021"
publish = false

[dependencies]
serenity = "0.11"
tokio = { version = "1", features = ["macros", "rt-multi-thread"] }
