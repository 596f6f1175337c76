[package]
name = "tribles"
version = "0.1.0"
edition = "2021"
publish = false

[dependencies]
siphasher = "*"
sha2 = "*"
rand = "*"
sucds = "*"
bytes = "*"
digest = "*"
futures = "*"
