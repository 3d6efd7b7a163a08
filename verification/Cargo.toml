[package]
name = "circom"
version = "0.1.0"
edition = "2021"
publish = false

[dependencies]
num-bigint = "0.4"
num-traits = "0.2"
serde = { version = "1.0", features = ["derive"] }
serde_json = "1.0"
json = "0.12"
ansi_term = "0.12"
threadpool = "1.8"
num_cpus = "1"
