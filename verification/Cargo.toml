[package]
name = "yasai"
version = "0.1.0"
edition = "2021"
publish = false

[dependencies]
shogi_core = "0.1"
arrayvec = "0.7"
bitintr = "0.3"
rand = "0.8"
once_cell = "1"
cfg-if = "1"

[dev-dependencies]
shogi_usi_parser = "0.1"
itertools = "0.10"
