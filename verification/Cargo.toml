[package]
name = "picobench"
version = "0.1.0"
edition = "2021"
publish = false

[dependencies]
tinyjson = "*"
yansi = "1"
core_affinity = "*"
fastant = "*"
