[package]
name = "libbit"
version = "0.1.0"
edition = "2021"
publish = false

[dependencies]
sha1 = "=0.11.0"
hex = "=0.4.3"
flate2 = "=1.1.10"
git-config = "=0.2.1"
diffy = "=0.5.2"
dirs = "=4.0.0"
