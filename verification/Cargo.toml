[package]
name = "qasm_core"
version = "0.1.0"
edition = "2021"
publish = false

[dependencies]
rain_quantum_simulator = "*"
