[package]
name = "cranelift_lower"
version = "0.1.0"
edition = "2021"
publish = false

[dependencies]
cranelift-codegen = { version = "0.68", default-features = false, features = ["std"] }
cranelift-frontend = { version = "0.68", default-features = false, features = ["std"] }
