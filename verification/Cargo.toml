[package]
name = "ferrocad"
version = "0.1.0"
edition = "2021"
publish = false

[dependencies]
manifold-csg = "*"
quick-xml = { version = "*", features = ["serialize"] }
serde = { version = "1", features = ["derive"] }
stl_io = "*"
threemf = "*"
zip = "*"
