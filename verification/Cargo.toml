[package]
name = "choice_tape"
version = "0.1.0"
edition = "2021"
publish = false

[dependencies]
rand = { version = "=0.10.3", default-features = false, features = ["std"] }
rand_xorshift = { version = "*", default-features = false }
