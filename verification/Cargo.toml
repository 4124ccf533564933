[package]
name = "web_client"
version = "0.1.0"
edition = "2021"
publish = false

[dependencies]
petgraph = "=0.7.1"
scraper = "=0.22.0"
crossbeam-channel = "=0.5.17"
