[package]
name = "z3_sched"
version = "0.1.0"
edition = "2021"
publish = false

[dependencies]
z3 = "=0.10.0"
serde_json = "=1.0.154"
