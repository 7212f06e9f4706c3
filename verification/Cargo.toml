[package]
name = "mcts"
version = "0.1.0"
edition = "2021"
publish = false

[dependencies]
rand = "0.8"
float-ord = "*"
rolling-stats = "*"
colored = "*"
rustc-hash = "*"
weighted_rand = "*"
strum = "*"
strum_macros = "*"
