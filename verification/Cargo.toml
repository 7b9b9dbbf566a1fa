[package]
name = "stordy"
version = "0.1.0"
edition = "2021"
publish = false

[dependencies]
sled = "0.34"
uuid = { version = "1", features = ["v7"] }
itertools = "0.12"
prost = "0.12"
tonic = "0.11"
tokio = { version = "1", features = ["macros", "rt-multi-thread"] }
