[package]
name = "executor_core"
version = "0.1.0"
edition = "2021"
publish = false

[dependencies]
dotproperties = "*"
log = "0.4"
log4rs = "1"
tokio = { version = "1", features = ["macros", "rt-multi-thread"] }
