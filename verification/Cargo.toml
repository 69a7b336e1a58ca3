[package]
name = "thinclippy"
version = "0.1.0"
edition = "2021"
publish = false

[dependencies]
structopt = "0.3"
termcolor = "1"
