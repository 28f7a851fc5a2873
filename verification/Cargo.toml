[package]
name = "raytrace"
version = "0.1.0"
edition = "2021"
publish = false

[dependencies]
rand = "=0.8.8"
image = "=0.24.9"
nalgebra = { version = "=0.29.0", features = ["serde-serialize", "rand"] }
num-traits = "=0.2.19"
serde = { version = "=1.0.229", features = ["derive"] }
serde_json = "=1.0.154"
clap = "=2.34.0"
indicatif = "0.17"
minifb = "0.27"
rayon = "=1.12.0"
tobj = "=3.2.5"
itertools = "=0.10.5"
