[package]
name = "metalspone"
version = "0.1.0"
edition = "2021"
publish = false

[dependencies]
p3-air = "=0.2.0-succinct"
p3-baby-bear = "=0.2.0-succinct"
p3-challenger = "=0.2.0-succinct"
p3-commit = "=0.2.0-succinct"
p3-dft = "=0.2.0-succinct"
p3-field = "=0.2.0-succinct"
p3-matrix = "=0.2.0-succinct"
p3-symmetric = "=0.2.0-succinct"
p3-util = "=0.2.0-succinct"
hashbrown = "0.14.5"
itertools = "0.13"
blake3 = "1"
num_cpus = "1.16"
clap = { version = "4.5", features = ["derive"] }
serde = { version = "1", features = ["derive"] }
tracing = "0.1"

[dev-dependencies]
rand = "0.8"
