[package]
name = "state_partition"
version = "0.1.0"
edition = "2021"
publish = false
