[package]
name = "treeterminus"
version = "0.1.0"
edition = "2021"
publish = false

[dependencies]
petgraph = "=0.8.3"
clap = "2"
serde = { version = "*", features = ["derive"] }
serde_json = { version = "*", features = ["unbounded_depth"] }
serde_stacker = "*"
serde-pickle = "*"
ndarray = "*"
num-format = "*"
pretty_env_logger = "*"
run_script = "*"
