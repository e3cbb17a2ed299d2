[package]
name = "easy_iot"
version = "0.1.0"
edition = "2021"
publish = false

[dependencies]
heapless = "=0.8.0"
ewebsock = { version = "=0.8.0", default-features = false }
log = "=0.4.35"
embassy-net = { version = "0.4", features = ["tcp", "proto-ipv4", "dhcpv4", "medium-ethernet"] }
embassy-time = "0.3"
embassy-sync = "0.6"
embedded-io = "0.6"
embedded-io-async = "0.6"
