[package]
name = "artifact_pruner"
version = "0.1.0"
edition = "2021"
publish = false

[dependencies]
argparse = "*"

[dev-dependencies]
regex = "*"
