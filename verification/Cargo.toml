[package]
name = "ark_ec"
version = "0.1.0"
edition = "2021"
publish = false

[dependencies]
ark-ff = { version = "0.3", default-features = false }
ark-serialize = { version = "0.3", default-features = false }
ark-std = { version = "0.3", default-features = false, features = ["std"] }
num-traits = { version = "0.2", default-features = false }
zeroize = { version = "1", default-features = false }
