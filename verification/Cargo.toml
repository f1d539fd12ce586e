[package]
name = "tcpgen"
version = "0.1.0"
edition = "2021"
publish = false

[dependencies]
rand = "*"
walkdir = "*"
iron = "*"
url = "1"
image = "*"
