[package]
name = "destiny"
version = "0.1.0"
edition = "2021"
publish = false

[dependencies]
meval = "0.2"
rand = "0.7"
prettytable-rs = "0.8"

[dev-dependencies]
regex = "1"
itertools = "0.8"
