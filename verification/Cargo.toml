[package]
name = "tep"
version = "0.1.0"
edition = "2021"
publish = false

[dependencies]
png = "*"
camino = "*"
getopts = "*"
thiserror = "*"
