[package]
name = "jmrg"
version = "0.1.0"
edition = "2021"
publish = false

[dependencies]
serde = "=1.0.229"
serde_json = "=1.0.154"
clap = "=4.6.7"
flate2 = "=1.1.10"
bzip2 = "=0.6.1"
infer = "=0.22.0"
