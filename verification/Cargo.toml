[package]
name = "step_perf"
version = "0.1.0"
edition = "2021"
publish = false

[dependencies]
itertools = "=0.15.0"
ndarray = "=0.17.2"
npyz = "=0.9.1"
num-traits = "=0.2.19"
serde = { version = "=1.0.229", features = ["derive"] }
serde_json = "=1.0.154"
