[package]
name = "power_monitor"
version = "0.1.0"
edition = "2021"
publish = false

[dependencies]
chrono = "0.4"
serial-core = "0.4"
serial-unix = "0.4"
