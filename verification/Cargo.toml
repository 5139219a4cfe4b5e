[package]
name = "xat"
version = "0.1.0"
edition = "2021"
publish = false

[dependencies]
xattr = "*"
zen-colour = "*"
