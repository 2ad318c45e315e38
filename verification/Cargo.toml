[package]
name = "image_of_images_creator"
version = "0.1.0"
edition = "2021"
publish = false

[dependencies]
image = "*"
clap = "*"
colored = "*"
rayon = "*"
