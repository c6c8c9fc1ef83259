[package]
name = "keyed_list"
version = "0.1.0"
edition = "2021"
publish = false

[dependencies]
serde = "*"
serde_json = "*"
futures = "*"
reactive_graph = "*"
