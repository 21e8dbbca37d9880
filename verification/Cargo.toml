[package]
name = "shenzhen_solitaire"
version = "0.1.0"
edition = "2021"
publish = false

[dependencies]
rand = "0.4"
stdweb = "0.4"
bitflags = "1"
