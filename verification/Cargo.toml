[package]
name = "rsmdl"
version = "0.1.0"
edition = "2021"
publish = false

[dependencies]
rayon = "=1.12.0"
ndarray = "=0.15.6"
pyo3 = "=0.30.1"
numpy = "=0.30.0"
hdf5 = "=0.8.1"
indicatif = "=0.18.6"
tabled = "=0.22.0"
