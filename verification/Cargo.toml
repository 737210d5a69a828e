[package]
name = "email_dehash"
version = "0.1.0"
edition = "2021"
publish = false

[dependencies]
hex = "0.4"
rayon = "1"
sha2 = "0.10"
structopt = "0.3"
