[package]
name = "sr_router"
version = "0.1.0"
edition = "2021"
publish = false

[dependencies]
hyper = { version = "0.10", default-features = false }
quick-error = "1"
