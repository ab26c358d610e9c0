[package]
name = "ext4_core"
version = "0.1.0"
edition = "2021"
publish = false

[dependencies]
hashbrown = "*"
clap = { version = "4", features = ["derive"] }
bitflags = "1"
