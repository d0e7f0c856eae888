[package]
name = "oisy_trade"
version = "0.1.0"
edition = "2021"
publish = false

[dependencies]
candid = "=0.10.39"
ic-stable-structures = "=0.7.2"
num-bigint = "=0.4.8"
