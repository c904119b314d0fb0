[package]
name = "fft_pipeline"
version = "0.1.0"
edition = "2021"
publish = false

[dependencies]
clap = "*"
gnuplot = "*"
num-complex = "*"
rustfft = "*"
