[package]
name = "gridbot"
version = "0.1.0"
edition = "2021"
publish = false

[dependencies]
bit-vec = "=0.6.3"
pathfinding = "=4.16.0"
rand = "=0.7.3"
duckduckgeo = "=0.4.2"
axgeom = "=1.13.2"
dinotree = "=0.5.5"
dinotree_alg = "=0.8.11"
dists = "=0.4.2"
ordered-float = "*"
egaku2d = "=0.5.4"
