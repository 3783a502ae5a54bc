[package]
name = "persisted_hashmap"
version = "0.1.0"
edition = "2021"
publish = false

[dependencies]
aligned-vec = "0.6"
ph = "0.8"
zerocopy = { version = "0.8", default-features = false }

[dev-dependencies]
itertools = { version = "0.14", default-features = false }
rand = { version = "0.10", default-features = false, features = ["std_rng"] }
