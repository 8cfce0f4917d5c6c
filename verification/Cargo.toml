[package]
name = "derivefmt"
version = "0.1.0"
edition = "2021"
publish = false

[dependencies]
ra_ap_syntax = "=0.0.241"
ra_ap_parser = "=0.0.241"
ra_ap_text_edit = "=0.0.241"
rowan = "=0.15.15"
anyhow = "*"
clap = { version = "*", features = ["derive"] }
glob = "*"
rayon = "*"
