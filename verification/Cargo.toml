[package]
name = "procmon"
version = "0.1.0"
edition = "2021"
publish = false

[dependencies]
sysinfo = "0.29"
nix = "0.26"
crossterm = "0.25"
tui = "0.19"
