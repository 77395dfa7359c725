[package]
name = "unpack_assets"
version = "0.1.0"
edition = "2021"
publish = false

[dependencies]
argparse = "*"
bytesize = "*"
flate2 = "*"
log = "*"
num_cpus = "*"
simple_logger = "*"
tar = "*"
