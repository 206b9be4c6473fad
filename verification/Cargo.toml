[package]
name = "schedviz_rust"
version = "0.1.0"
edition = "2021"
publish = false

[dependencies]
eframe = { version = "0.30", default-features = false, features = ["default_fonts", "glow", "x11"] }
image = { version = "0.25", default-features = false, features = ["png"] }
png = "0.17"
rfd = { version = "0.15", default-features = false, features = ["xdg-portal", "async-std"] }
ab_glyph = "0.2"
csv = "1"
serde = { version = "1", features = ["derive"] }
