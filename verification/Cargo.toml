[package]
name = "tracker_announce"
version = "0.1.0"
edition = "2021"
publish = false

[dependencies]
url = "*"
rand = "0.8"
