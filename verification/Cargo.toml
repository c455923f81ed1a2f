[package]
name = "building_codec"
version = "0.1.0"
edition = "2021"
publish = false

[dependencies]
indexmap = "*"

[dev-dependencies]
rand = "*"
