[package]
name = "sojourn"
version = "0.1.0"
edition = "2021"
publish = false

[dependencies]
rand = "=0.10.3"
faer = "=0.24.4"
basin = "=1.15.2"
futures-channel = "=0.3.34"
thiserror = "=2.0.21"
tracing = "=0.1.44"

[dev-dependencies]
pollster = "=1.0.1"
