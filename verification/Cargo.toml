[package]
name = "hcad"
version = "0.1.0"
edition = "2021"
publish = false

[dependencies]
ttf-parser = "*"
ab_glyph = "*"
serde = { version = "*", features = ["derive"] }
truck-meshalgo = "*"
truck-modeling = "*"
truck-polymesh = "*"
truck-shapeops = "*"
truck-stepio = "*"
manifold3d = "*"
egui = { version = "*", default-features = false }
