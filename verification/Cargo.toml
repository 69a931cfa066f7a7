[package]
name = "query_processing"
version = "0.1.0"
edition = "2021"
publish = false

[dependencies]
uuid = { version = "=1.27.0", features = ["v4"] }
oxrdf = "=0.3.4"
spargebra = "=0.4.7"
