[package]
name = "dns_resolver"
version = "0.1.0"
edition = "2021"
publish = false

[dependencies]
rand = "*"
tokio = { version = "*", features = ["rt-multi-thread", "net", "macros", "time"] }
