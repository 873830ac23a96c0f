[package]
name = "seiren"
version = "0.1.0"
edition = "2021"
publish = false

[dependencies]
petgraph = "=0.6.5"
svg = "=0.13.1"
smallvec = "=1.16.4"
fixedbitset = "=0.4.2"
thiserror = "=1.0.69"
ariadne = "=0.3.0"
