[package]
name = "annulus_mesh"
version = "0.1.0"
edition = "2021"
publish = false

[dependencies]
docopt = "0.7"
gnuplot = "*"
mersenne_twister = "1"
rand = "0.4"
rustc-serialize = "0.3"
