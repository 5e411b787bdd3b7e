[package]
name = "tracer"
version = "0.1.0"
edition = "2021"
publish = false

[dependencies]
image = { version = "*", default-features = false, features = ["png"] }
nalgebra = "*"
num_cpus = "*"
rand = "*"
threadpool = "*"
time = "0.1"
