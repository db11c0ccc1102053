[package]
name = "fidget"
version = "0.1.0"
edition = "2021"
publish = false

[dependencies]
bytemuck = { version = "1", features = ["derive"] }
dynasmrt = "2"
indoc = "2"
