[package]
name = "launch"
version = "0.1.0"
edition = "2021"
publish = false

[dependencies]
base64 = "0.22"
anyhow = "1"
clap = { version = "4", features = ["derive"] }
serde = { version = "1", features = ["derive"] }
serde_json = "1"
image = { version = "0.25", default-features = false, features = ["png"] }
imageproc = { version = "0.25", default-features = false }
ab_glyph = "0.2"
png = "0.17"
arboard = "3"
ctrlc = "3"
zip = { version = "2", default-features = false, features = ["deflate"] }
