[package]
name = "mc_server_scanner"
version = "0.1.0"
edition = "2021"
publish = false

[dependencies]
netstat2 = "*"
portforwarder-rs = "=0.1.1"
get_if_addrs = "=0.5.3"
igd = "=0.12.1"
