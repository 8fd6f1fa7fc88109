[package]
name = "bfk"
version = "0.2.0"
edition = "2021"
publish = false

[dependencies]
clap = "2"
exitcode = "1.1"
