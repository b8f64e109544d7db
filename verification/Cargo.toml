[package]
name = "neuron_engine"
version = "0.1.0"
edition = "2021"
publish = false

[dependencies]
ash = "0.38"
ash-window = "0.13"
winit = "0.30"
log = "0.4"
anyhow = "1"
thiserror = "2"
