[package]
name = "puzzle_solvers"
version = "0.1.0"
edition = "2021"
publish = false

[dependencies]
itertools = "0.13"
ndarray = "0.16"
pathfinding = "4"
rayon = "1"
regex = "1"
