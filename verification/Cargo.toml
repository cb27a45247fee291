[package]
name = "capnp_framing"
version = "0.1.0"
edition = "2021"
publish = false

[dependencies]
capnp = "0.11"
futures = "=0.3.34"

[dev-dependencies]
quickcheck = { version = "=0.9.2", default-features = false }
