[package]
name = "wazzi"
version = "0.1.0"
edition = "2021"
publish = false

[dependencies]
arbitrary = "1"
nix = { version = "0.29", features = ["signal"] }
num-bigint = "0.4"
serde = { version = "1", features = ["derive"] }
serde_json = "1"
z3 = "0.12"
