[package]
name = "kropp"
version = "0.1.0"
edition = "2021"
publish = false

[dependencies]
anyhow = "=1.0.104"
clap = { version = "=4.6.7", features = ["derive"] }
image = "=0.25.10"
imageproc = { version = "=0.27.0", default-features = false }
ort = { version = "=2.0.0-rc.10", default-features = false, features = ["std", "load-dynamic", "fetch-models", "cuda", "directml"] }
tiff = "=0.10.3"
usls = { version = "=0.1.10", default-features = false, features = ["rmbg", "ort-load-dynamic", "cuda", "directml"] }
