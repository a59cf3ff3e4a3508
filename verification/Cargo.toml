[package]
name = "rusty_beads"
version = "0.1.0"
edition = "2021"

[dependencies]
half = "1.8"
