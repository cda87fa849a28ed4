[package]
name = "superinstance-hdc-core"
version = "0.1.0"
edition = "2021"
publish = false

[dependencies]
murmurhash = "*"
thiserror = "1"
structopt = "0.3"
termcolor = "1"
