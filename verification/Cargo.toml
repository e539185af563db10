[package]
name = "reforge"
version = "0.1.0"
edition = "2021"
publish = false

[dependencies]
alloy-primitives = "=1.7.3"
chrono = "0.4"
clap = { version = "4", features = ["derive"] }
comfy-table = "=8.0.1"
eyre = "0.6"
foundry-compilers = { version = "=0.21.0", default-features = false }
inferno = { version = "=0.12.8", default-features = false }
itertools = "=0.14.0"
libc = "0.2"
opener = "=0.8.5"
quick-junit = "=0.8.0"
regex = "1"
serde_json = "1"
solar-compiler = { version = "=0.1.8", default-features = false }
tokio = { version = "1", features = ["rt"] }
yansi = "1"
