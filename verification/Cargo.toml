[package]
name = "dspkernel"
version = "0.1.0"
edition = "2021"
publish = false

[dependencies]
fixed = "1"
num = "0.4"
ndarray = "0.16"
plotters = { version = "0.3", default-features = false, features = ["bitmap_backend", "bitmap_encoder", "line_series"] }
