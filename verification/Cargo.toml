[package]
name = "vectorscale"
version = "0.1.0"
edition = "2021"
publish = false

[dependencies]
rand = { version = "0.8", features = ["small_rng"] }
rayon = "1"
pgrx = { version = "0.16", default-features = false, features = ["pg17"] }
