[package]
name = "bevy_ui"
version = "0.1.0"
edition = "2021"
publish = false

[dependencies]
arboard = { version = "=3.7.0", default-features = false, features = ["image-data"] }
slotmap = "=1.1.1"
smallvec = "=1.16.4"
