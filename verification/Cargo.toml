[package]
name = "sph_cfd"
version = "0.1.0"
edition = "2021"
publish = false

[dependencies]
serde = { version = "=1.0.229", features = ["derive"] }
grass_app = "=0.1.1"
grass_multi = "=0.1.1"
grass_scheduler = "=0.1.1"
