[package]
name = "plantastic"
version = "0.1.0"
edition = "2021"
publish = false

[dependencies]
chrono = { version = "=0.4.45", features = ["serde"] }
serde = { version = "=1.0.229", features = ["derive"] }
serde_json = "=1.0.154"
thiserror = "=2.0.21"
image = { version = "=0.25.10", default-features = false, features = ["png"] }
imageproc = { version = "=0.27.0", default-features = false, features = ["text"] }
ab_glyph = "=0.2.32"
delaunator = "=1.1.0"
meshopt = "=0.7.0"
kiddo = "=6.3.0"
nalgebra = "=0.35.0"
rand = "=0.10.3"
hdbscan = "=0.12.0"
ply-rs-bw = "=4.0.1"
indexmap = "=2.14.2"
earcutr = "=0.5.0"
