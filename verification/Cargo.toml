[package]
name = "pheap"
version = "0.1.0"
edition = "2021"

[dependencies]
num-traits = "0.2"
