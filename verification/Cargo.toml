[package]
name = "rubbl"
version = "0.1.0"
edition = "2021"
publish = false

[dependencies]
byteorder = "1"
thiserror = "1"
anyhow = "1"
num-complex = "0.4"
ndarray = "0.15"
openat = "0.1"
termcolor = "1"
clap = "4"
