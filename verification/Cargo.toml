[package]
name = "routers"
version = "0.1.1"
edition = "2021"
publish = false

[dependencies]
matchit = "=0.8.6"
reactive_graph = { version = "0.2", default-features = false }
