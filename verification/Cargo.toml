[package]
name = "simulation"
version = "0.1.0"
edition = "2021"
publish = false

[dependencies]
graph-simulation = "*"
pyo3 = "0.23"
