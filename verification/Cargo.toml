[package]
name = "magic_packet_builder"
version = "0.1.0"
edition = "2021"
publish = false

[dependencies]
nix = { version = "*", features = ["net"] }
structopt = "0.3"
