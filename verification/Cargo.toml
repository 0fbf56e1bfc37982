[package]
name = "lang_peers"
version = "0.1.0"
edition = "2021"
publish = false

[dependencies]
clap = { version = "*", features = ["derive"] }
csv = "*"
gnuplot = "*"
serde = { version = "*", features = ["derive"] }
