[package]
name = "dup_img_finder"
version = "0.1.0"
edition = "2021"
publish = false

[dependencies]
anyhow = "*"
base64-url = "*"
clap = { version = "*", features = ["derive"] }
colored = "*"
crossbeam = "*"
home = "*"
image = "*"
image_hasher = "*"
num_cpus = "*"
regex = "*"
serde = { version = "*", features = ["derive"] }
sqlite = "*"
terminal_size = "*"
toml = "*"
unicode-width = "*"
