[package]
name = "markdown_it"
version = "0.1.0"
edition = "2021"
publish = false

[dependencies]
regex = "=1.13.1"
unicode-general-category = "=1.1.0"
clap = "=4.6.7"
memchr = "=2.8.3"
