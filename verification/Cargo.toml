[package]
name = "udf_forensic"
version = "0.1.0"
edition = "2021"
publish = false

[dependencies]
forensicnomicon = "*"
forensic-vfs = "*"
serde = { version = "1", features = ["derive"] }
