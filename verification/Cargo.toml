[package]
name = "padding_oracle"
version = "0.1.0"
edition = "2021"
publish = false

[dependencies]
thiserror = "1.0"

[dev-dependencies]
aes = "0.8"
cbc = "0.1"
