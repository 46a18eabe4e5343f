[package]
name = "bicycle_chain"
version = "0.1.0"
edition = "2021"
publish = false

[dependencies]
avian2d = { version = "=0.2.1", default-features = false, features = ["2d", "f64", "parry-f64"] }
bevy = { version = "=0.15.3", default-features = false }
noise = "0.9"
rand = "=0.8.8"
