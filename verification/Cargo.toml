[package]
name = "rusty_theme"
version = "0.1.0"
edition = "2021"
publish = false

[dependencies]
clap = "=2.34.0"
dirs = "=5.0.1"
float-cmp = "*"
image = { version = "=0.24.9", default-features = false, features = ["jpeg"] }
rand = "=0.8.8"
xrdb = "=0.1.1"
