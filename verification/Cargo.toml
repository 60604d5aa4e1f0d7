[package]
name = "bbsort"
version = "0.1.0"
edition = "2021"
publish = false

[dependencies]
petgraph = "0.6"
iced-x86 = { version = "1", default-features = false, features = ["std", "decoder", "instr_info", "masm"] }
goblin = "0.7"
kendalls = "*"
dot2 = "1"
serde = { version = "1", features = ["derive"] }
serde_yaml = "0.9"
