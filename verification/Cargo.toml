[package]
name = "thunes"
version = "0.1.0"
edition = "2021"
publish = false

[dependencies]
charts = "0.3"
clap = { version = "4", features = ["derive"] }
time = { version = "0.3", features = ["formatting", "macros", "parsing"] }
