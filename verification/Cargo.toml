[package]
name = "fft"
version = "0.1.0"
edition = "2021"
publish = false

[dependencies]
argparse = "*"
hound = "*"
num-complex = "*"
plotlib = "*"
termion = "1.5"
tui = { version = "*", default-features = false, features = ["termion"] }
