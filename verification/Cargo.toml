[package]
name = "printree"
version = "0.1.0"
edition = "2021"
publish = false

[dependencies]
globset = "*"
regex-automata = "*"
clap = { version = "*", features = ["derive"] }
git2 = "*"
ignore = "*"
termcolor = "*"
encoding_rs = "*"
anyhow = "*"
