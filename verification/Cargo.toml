[package]
name = "fossil"
version = "0.1.0"
edition = "2021"
publish = false

[dependencies]
logos = "*"
rowan = "*"
smol_str = "*"
serde = { version = "1", features = ["derive"] }
serde_yaml_ng = "*"
thiserror = "*"
arrow-schema = "*"
arrow-array = "*"
parquet = { version = "*", default-features = false, features = ["arrow"] }
shex_ast = "*"
prefixmap = "*"
