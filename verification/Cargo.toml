[package]
name = "aggregation"
version = "0.1.0"
edition = "2021"
publish = false

[dependencies]
ark-ff = "0.4"
ark-serialize = "0.4"
ark-std = "0.4"
num-bigint = "0.4"
num-traits = "0.2"
rand = "0.8"
rand_chacha = "0.3"
socket2 = "0.5"
