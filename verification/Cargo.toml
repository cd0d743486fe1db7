[package]
name = "road_match"
version = "0.1.0"
edition = "2021"
publish = false

[dependencies]
lru-cache = "*"
quicksort = "*"
geogrid = "*"
bzip2 = "*"
getopts = "*"
ocl = "*"
rocket = { version = "0.5", features = ["json"] }
serde = { version = "1", features = ["derive"] }
serde_json = "1"
stopwatch = "*"
