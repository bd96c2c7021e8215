[package]
name = "bench_report"
version = "0.1.0"
edition = "2021"
publish = false

[dependencies]
termcolor = "=1.4.1"
unicode-width = "=0.1.14"
