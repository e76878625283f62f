[package]
name = "web2md"
version = "0.1.0"
edition = "2021"
publish = false

[dependencies]
url = "=2.5.8"
scraper = "=0.29.0"
regex = "=1.13.1"
html2md = "=0.2.17"
sanitize-filename = "=0.6.0"
rayon = "=1.12.0"
dom_smoothie = "=0.18.2"
tokio = { version = "=1.54.1", features = ["rt-multi-thread", "macros", "fs", "io-util"] }
reqwest = "=0.12.28"
clap = { version = "=4.6.7", features = ["derive"] }
color-eyre = "=0.6.5"
futures = "=0.3.34"
indicatif = "=0.17.11"
num_cpus = "=1.17.0"
promkit = { version = "=0.10.1", features = ["confirm"] }
arboard = { version = "=3.7.0", default-features = false }
dunce = "=1.0.5"
