[package]
name = "peg_solitaire"
version = "0.1.0"
edition = "2021"
publish = false

[dependencies]
boolinator = "2.4"
itertools = "0.10"
num-traits = "0.2"
smallvec = "1"
speedy2d = "1"
