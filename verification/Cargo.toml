[package]
name = "runcher_core"
version = "0.1.0"
edition = "2021"
publish = false

[dependencies]
regex = "1"
anyhow = "1"
directories = "*"
open = "*"
rpfm_lib = "*"
steam-workshop-api = "*"
