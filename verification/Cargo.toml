[package]
name = "ecology_simulator"
version = "0.1.0"
edition = "2021"
publish = false

[dependencies]
bytemuck = { version = "1", features = ["derive"] }
console_error_panic_hook = "0.1"
console_log = "1"
d3_geo_voronoi_rs = "=0.10.7"
geo-types = "=0.7.20"
glam = { version = "=0.30.10", features = ["bytemuck"] }
js-sys = "0.3"
log = "0.4"
rayon = "=1.12.0"
wasm-bindgen = "0.2"
wasm-bindgen-rayon = "1"
web-sys = { version = "0.3", features = ["OffscreenCanvas"] }
wgpu = { version = "=30.0.1", default-features = false, features = ["webgpu", "wgsl"] }
