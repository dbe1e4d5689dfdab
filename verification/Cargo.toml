[package]
name = "flow_control_index"
version = "0.1.0"
edition = "2021"
publish = false

[dependencies]
radix_fmt = "1"
