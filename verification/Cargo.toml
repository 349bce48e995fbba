[package]
name = "pairwise_distance"
version = "0.1.0"
edition = "2021"
publish = false

[dependencies]
clap = { version = "4", features = ["derive"] }
itertools = "0.13"
pretty-table = "*"
rig-core = "0.4"
semanticsimilarity_rs = "0.1.1"
serde_json = "1"
tokio = { version = "1", features = ["macros", "rt-multi-thread"] }
