[package]
name = "multi_rebase"
version = "0.1.0"
edition = "2021"
publish = false

[dependencies]
anyhow = "*"
chrono = "*"
ctrlc = "*"
git2 = "*"
libgit2-sys = "*"
structopt = "*"
