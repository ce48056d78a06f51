[package]
name = "bvgraph"
version = "0.1.0"
edition = "2021"
publish = false

[dependencies]
anyhow = "1"
bitflags = "2"
dsi-bitstream = "*"
