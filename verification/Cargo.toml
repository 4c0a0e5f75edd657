[package]
name = "code_editor"
version = "0.1.0"
edition = "2021"
publish = false

[dependencies]
makepad-futures = "0.4.0"
makepad-widgets = "0.6.0"
