[package]
name = "rangefinder"
version = "0.1.0"
edition = "2021"
publish = false

[dependencies]
wiringpi = { version = "=0.2.4", features = ["development"] }
