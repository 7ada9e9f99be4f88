[package]
name = "virtex"
version = "0.1.0"
edition = "2021"
publish = false

[dependencies]
arrayvec = "=0.5.2"
crossbeam-channel = "=0.5.17"
log = "=0.4.34"
pathfinder_color = "=0.5.0"
pathfinder_content = "=0.5.0"
pathfinder_geometry = "=0.5.1"
pathfinder_gpu = "=0.5.0"
pathfinder_resources = "=0.5.0"
pathfinder_simd = "=0.5.6"
rand = "=0.8.8"
resvg = "=0.48.1"

[dev-dependencies]
quickcheck = "=1.1.0"
