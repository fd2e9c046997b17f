[package]
name = "ccp_agent"
version = "0.1.0"
edition = "2021"
publish = false

[dependencies]
bytes = "0.4"
nom = "3"
nix = "0.9"
