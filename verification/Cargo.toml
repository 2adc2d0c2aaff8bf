[package]
name = "frogwatch_plotter"
version = "0.1.0"
edition = "2021"
publish = false

[dependencies]
egui = "0.27"
egui_plot = "0.27"
env_logger = "0.10"
log = "0.4"
