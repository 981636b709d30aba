[package]
name = "regxmllib"
version = "0.1.0"
edition = "2021"
publish = false

[dependencies]
roxmltree = "*"
quick-xml = "*"
encoding_rs = "0.8"
half = "2"
uuid = "1"
thiserror = "*"
anyhow = "1"
clap = { version = "4", features = ["derive"] }
tracing = "0.1"
tracing-subscriber = "0.3"
