[package]
name = "raytracer"
version = "0.1.0"
edition = "2021"
publish = false

[dependencies]
float-cmp = "0.9"
num_cpus = "1"
rand = "0.8"
threadpool = "1"
