[package]
name = "boid_bench"
version = "0.1.0"
edition = "2021"
publish = false

[dependencies]
eframe = { version = "=0.36.2", default-features = false, features = ["glow", "default_fonts", "x11"] }
egui = { version = "=0.36.2", default-features = false }
egui_plot = { version = "=0.37.0", default-features = false }
tokio = { version = "=1.53.2", default-features = false, features = ["rt-multi-thread", "process", "io-util"] }
