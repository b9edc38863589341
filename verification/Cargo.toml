[package]
name = "multipart_async_stream"
version = "0.1.0"
edition = "2021"
publish = false

[dependencies]
async-iterator = "2"
bytes = "1"
futures-util = "0.3"
http = "1"
httparse = "1"
memchr = "2"
thiserror = "2"
tokio = { version = "1", features = ["rt"] }
