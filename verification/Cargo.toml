[package]
name = "hdl_graph"
version = "0.1.0"
edition = "2021"
publish = false

[dependencies]
nand2tetris-hdl-parser = "*"
clap = "*"
subprocess = "*"
which = "*"
