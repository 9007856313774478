[package]
name = "tower-balance"
version = "0.1.0"
edition = "2021"
publish = false

[dependencies]
futures = "0.1"
indexmap = "1"
log = "0.4"
rand = "0.6"

[dev-dependencies]
quickcheck = { version = "0.8", default-features = false }
