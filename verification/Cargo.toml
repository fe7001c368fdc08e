[package]
name = "surgery_scheduling"
version = "0.1.0"
edition = "2021"
publish = false

[dependencies]
crossbeam = "=0.8.5"
csv = "1"
rand = "=0.8.8"
structopt = "=0.3.26"
