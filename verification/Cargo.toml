[package]
name = "oc_sort"
version = "0.1.0"
edition = "2021"
publish = false

[dependencies]
kfilter = "=0.5.1"
nalgebra = "=0.34.2"
pathfinding = "=4.16.0"
pyo3 = "=0.30.1"
