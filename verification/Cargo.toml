[package]
name = "street_engine"
version = "0.1.0"
edition = "2021"
publish = false

[dependencies]
rstar = "=0.14.0"
bezier-rs = "=0.5.0"
glam = "=0.29.3"
rand = "=0.8.8"
