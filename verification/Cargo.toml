[package]
name = "beamprop"
version = "0.1.0"
edition = "2021"
publish = false

[dependencies]
anyhow = "=1.0.104"
clap = { version = "=4.6.7", features = ["derive"] }
ndarray = "=0.16.1"
ndarray-npy = "=0.9.1"
ndrustfft = "=0.5.0"
num-complex = "=0.4.6"
numpy = "=0.30.0"
pyo3 = "=0.30.1"
rand_chacha = "0.3"
rayon = "=1.12.0"
