[package]
name = "simple_mcmc"
version = "0.1.0"
edition = "2021"
publish = false

[dependencies]
rand = "0.8"
color-eyre = "0.6"
textplots = "0.8"
