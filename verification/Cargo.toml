[package]
name = "ropc"
version = "0.0.1"
edition = "2021"
publish = false

[dependencies]
capstone = "*"
keystone-engine = "*"
object = "*"
clap = "3"
