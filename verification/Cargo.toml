[package]
name = "minesweeper"
version = "0.1.0"
edition = "2021"
publish = false

[dependencies]
arrayvec = "=0.7.8"
bitvec = "=1.1.1"
rand = "=0.8.8"
rand_core = "=0.6.4"
rand_xoshiro = "=0.6.0"
getrandom = "=0.2.17"
hex = "=0.4.3"
strum = "=0.24.1"
strum_macros = "=0.24.3"
delegate = "=0.9.0"
iced = { version = "0.9", default-features = false, features = ["glow", "tokio"] }
iced_native = "0.10"
