[package]
name = "bfr"
version = "0.1.0"
edition = "2021"
publish = false

[dependencies]
itertools = "0.10"
tinyvec = { version = "1", features = ["alloc"] }
libc = "0.2"
snafu = "0.6"
structopt = "0.3"
clap = "2.33"
