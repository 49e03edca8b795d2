[package]
name = "cfgz"
version = "0.1.0"
edition = "2021"
publish = false

[dependencies]
rand = "=0.10.3"
chrono = "=0.4.45"
rayon = "=1.12.0"
cfgrammar = "=0.15.0"
lrpar = "=0.15.0"
lrlex = "*"
