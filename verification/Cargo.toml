[package]
name = "openvpn_notifier"
version = "0.1.0"
edition = "2021"
publish = false

[dependencies]
chrono = "*"
clap = "*"
openvpn-management = "*"
pretty-bytes = "*"
pushover = "*"
