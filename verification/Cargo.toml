[package]
name = "delivery_planner"
version = "0.1.0"
edition = "2021"
publish = false

[dependencies]
fastrand = "1"
ordered-float = "*"
