[package]
name = "pareto_r"
version = "0.1.0"
edition = "2021"
publish = false

[dependencies]
argh = "0.1.19"
cty = "0.2.2"
pstools = "0.1.0"
scan_fmt = "0.2.6"
