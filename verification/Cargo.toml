[package]
name = "dradu"
version = "0.1.0"
edition = "2021"
publish = false

[dependencies]
json = "0.12"
indexmap = "1"
rand = "0.8"
eframe = "0.19"
egui = "0.19"
egui_extras = { version = "0.19", features = ["image"] }
image = { version = "0.24", default-features = false, features = ["png", "jpeg"] }
clipboard = "0.5"
strum_macros = "0.24"
