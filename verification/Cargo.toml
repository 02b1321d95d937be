[package]
name = "pid_ga"
version = "0.1.0"
edition = "2021"
publish = false

[dependencies]
rand = "0.9"
gag = "1"
typst = "0.13"
typst-as-lib = "0.14"
typst-pdf = "0.13"
