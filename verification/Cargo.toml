[package]
name = "vidoc"
version = "0.1.0"
edition = "2021"
publish = false

[dependencies]
bitstream-io = "*"
lz4_flex = "*"
num-traits = "*"
rayon = "*"
thiserror = "*"
wide = "*"
