[package]
name = "gufo_snmp"
version = "0.1.0"
edition = "2021"
publish = false

[dependencies]
rand = "0.8"
socket2 = "0.5"
pyo3 = "0.24"
