[package]
name = "hamming_heap"
version = "0.1.0"
edition = "2021"

[dependencies]
generic-array = "0.14"
