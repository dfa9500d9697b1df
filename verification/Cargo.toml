[package]
name = "git-vanity"
version = "0.1.0"
edition = "2021"
publish = false

[dependencies]
sha1 = "0.10"
hex = "0.4"
regex = "1"
clap = { version = "4", features = ["derive"] }
ctrlc = "3"
num_cpus = "1"
