[package]
name = "tcprust"
version = "0.1.0"
edition = "2021"
publish = false

[dependencies]
etherparse = "0.13"
tun = "0.6"
