[package]
name = "opportunities_bot"
version = "0.1.0"
edition = "2021"
publish = false

[dependencies]
select = "0.6"
reqwest = { version = "0.11", default-features = false, features = ["rustls-tls"] }
serenity = "0.10"
tokio = { version = "1", features = ["macros", "rt-multi-thread"] }
