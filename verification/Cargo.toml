[package]
name = "cannyls_rpc"
version = "0.1.0"
edition = "2021"
publish = false

[dependencies]
atomic_immut = "=0.1.4"
bytecodec = "=0.4.15"
cannyls = "=0.10.0"
factory = "=0.1.2"
fibers = "=0.1.13"
fibers_rpc = "=0.3.4"
futures = "=0.1.31"
slog = "=2.8.2"
trackable = "=0.2.24"
