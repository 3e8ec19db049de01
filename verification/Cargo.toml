[package]
name = "arg_locator"
version = "0.1.0"
edition = "2021"
publish = false

[dependencies]
clap = { version = "4.5", default-features = false, features = ["std"] }
clap_lex = "0.7"
