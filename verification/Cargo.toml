[package]
name = "json_parser"
version = "0.1.0"
edition = "2021"
publish = false

[dependencies]
futures = "0.3"
log = "0.4"
simple_logger = "*"
tokio = { version = "1", features = ["rt-multi-thread", "macros", "fs"] }
