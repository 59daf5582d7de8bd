[package]
name = "tonbo"
version = "0.1.0"
edition = "2021"
publish = false

[dependencies]
async-lock = "*"
flume = "*"
fusio = "*"
futures-core = "*"
futures-util = "*"
lockable = "*"
parquet = { version = "*", default-features = false, features = ["arrow"] }
thiserror = "*"
tracing = "*"
