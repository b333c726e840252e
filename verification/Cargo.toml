[package]
name = "netdump"
version = "0.1.0"
edition = "2021"
publish = false

[dependencies]
etherparse = "=0.21.0"
clap = { version = "=4.6.7", features = ["derive"] }
libc = "=0.2.191"
pcap-file = "=2.0.0"
