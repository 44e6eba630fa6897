[package]
name = "trace_flatten"
version = "0.1.0"
edition = "2021"
publish = false

[dependencies]
ethers = { version = "=2.0.14", default-features = false, features = ["ws", "rustls"] }
tokio = { version = "1", features = ["macros", "rt-multi-thread"] }
futures-util = "0.3"
