[package]
name = "coffer"
version = "0.1.0"
edition = "2021"
publish = false

[dependencies]
exec = "*"
hex = "*"
sodiumoxide = "*"
tokio = { version = "*", features = ["full"] }
toml = "*"

[dev-dependencies]
serde_cbor = "*"
