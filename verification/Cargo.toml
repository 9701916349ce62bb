[package]
name = "sudoku_solver"
version = "0.1.0"
edition = "2021"
publish = false

[dependencies]
clap = { version = "4", features = ["derive"] }
clap-verbosity-flag = "*"
itertools = "*"
log = "0.4"
simple_logger = "*"
