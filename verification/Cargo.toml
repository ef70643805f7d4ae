[package]
name = "kokomi"
version = "0.1.0"
edition = "2021"
publish = false

[dependencies]
iced = { version = "0.12", default-features = false, features = ["tokio"] }
ctrlc = "3"
objc = "0.2"
