[package]
name = "lr_percolation"
version = "0.1.0"
edition = "2021"
publish = false

[dependencies]
clap = { version = "4", features = ["derive"] }
rand = "0.9"
rand_chacha = "0.9"
rayon = "1"

[dev-dependencies]
union-find-rs = "*"
