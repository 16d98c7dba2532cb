[package]
name = "reachability_solver"
version = "0.1.0"
edition = "2021"
publish = false

[dependencies]
linear_solver = "*"
