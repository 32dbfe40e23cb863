[package]
name = "ethereum_adapter"
version = "0.1.0"
edition = "2021"
publish = false

[dependencies]
tiny-keccak = { version = "*", features = ["keccak"] }
ethabi = "*"
futures = "*"
graphql-parser = "*"
