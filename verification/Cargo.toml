[package]
name = "module_reach"
version = "0.1.0"
edition = "2021"
publish = false

[dependencies]
clap = { version = "*", features = ["derive"] }
clean-path = "*"
ignore = "*"
json_comments = "*"
petgraph = "*"
serde = { version = "*", features = ["derive"] }
serde_json = "*"
swc_atoms = "*"
swc_common = "*"
swc_ecma_ast = "*"
swc_ecma_parser = "*"
swc_ecma_visit = "*"
