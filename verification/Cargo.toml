[package]
name = "aabb_occlusion_culling"
version = "0.1.0"
edition = "2021"
publish = false

[dependencies]
box_intersect_ze = "*"
plotters = { version = "0.3", default-features = false, features = ["svg_backend"] }
pyo3 = { version = "0.20", features = ["abi3-py37"] }
