[package]
name = "ended"
version = "0.1.0"
edition = "2021"
publish = false

[dependencies]
bresenham = "=0.1.1"
hecs = "=0.7.7"
lazy_static = "=1.5.1"
macroquad = { version = "=0.3.26", default-features = false }
pathfinding = "=3.0.14"
