[package]
name = "mnist_nn"
version = "0.1.0"
edition = "2021"
publish = false

[dependencies]
burn = { version = "=0.16.1", default-features = false, features = ["std", "autodiff"] }
burn-cuda = { version = "=0.16.1", default-features = false }
