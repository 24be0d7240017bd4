[package]
name = "hap_wire"
version = "0.1.0"
edition = "2021"
publish = false

[dependencies]
hyper = "0.11"
serde_json = "1"

[dev-dependencies]
futures = "0.1"
