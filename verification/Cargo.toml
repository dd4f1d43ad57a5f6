[package]
name = "nisp"
version = "0.1.0"
edition = "2021"
publish = false

[dependencies]
replace_with = "0.1"
serde = { version = "1", features = ["derive"] }
serde_json = "1"
clap = { version = "4", features = ["derive"] }
capnp = "0.14"
flate2 = "1"
memmap2 = "0.5"
lazy_static = "1"
