[package]
name = "rtl_p25"
version = "0.1.0"
edition = "2021"
publish = false

[dependencies]
clap = "2.33"
num-complex = "0.4"
