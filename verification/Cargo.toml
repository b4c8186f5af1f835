[package]
name = "thanks"
version = "0.1.0"
edition = "2021"
publish = false

[dependencies]
regex = "=1.13.1"
caseless = "=0.2.2"
unicode-normalization = "=0.1.26"
git2 = { version = "=0.21.0", default-features = false }
diesel = { version = "=2.3.14", default-features = false, features = ["postgres"] }
clap = "=4.6.7"
semver = "1"
