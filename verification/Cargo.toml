[package]
name = "kasuari"
version = "0.1.0"
edition = "2021"
publish = false

[dependencies]
hashbrown = "0.15"
thiserror = "2"
