[package]
name = "zero_copy_log_parser"
version = "0.1.0"
edition = "2021"
publish = false

[dependencies]
ctrlc = "3"
pcap = "2"
rayon = "1"
