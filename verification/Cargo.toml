[package]
name = "ikigai-throttle"
version = "0.1.0"
edition = "2021"
publish = false

[dependencies]
ikigai-core = ">=0.1.0, <0.1.64"
async-trait = "0.1"
futures = "0.3"
