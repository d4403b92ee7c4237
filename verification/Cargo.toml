[package]
name = "query_solver"
version = "0.1.0"
edition = "2021"
publish = false

[dependencies]
petgraph = "*"
fixedbitset = "*"
priority-queue = "*"
fxhash = "*"
thiserror = "*"
