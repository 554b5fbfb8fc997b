[package]
name = "n_particles"
version = "0.1.0"
edition = "2021"
publish = false

[dependencies]
macroquad = "=0.4.16"
fastrand = "=2.5.0"
egui = "=0.31.1"
egui_plot = "=0.31.0"
egui-macroquad = "=0.17.3"
