[package]
name = "mdreader"
version = "0.3.0"
edition = "2021"
publish = false

[dependencies]
comrak = { version = "=0.28.0", default-features = false }
dirs = "5"
eframe = { version = "0.28", default-features = false, features = ["default_fonts", "glow"] }
egui_commonmark = { version = "0.17", default-features = false, features = ["pulldown_cmark"] }
egui_extras = { version = "0.28", default-features = false, features = ["file", "image"] }
rfd = { version = "0.14", default-features = false, features = ["tokio", "xdg-portal"] }
serde = { version = "1", features = ["derive"] }
serde_json = "1"
