[package]
name = "pass_store"
version = "0.1.0"
edition = "2021"
publish = false

[dependencies]
clap = "*"
is_executable = "*"
once_cell = "*"
rpassword = "*"
