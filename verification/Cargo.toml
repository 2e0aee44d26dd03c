[package]
name = "pasta_srs"
version = "0.1.0"
edition = "2021"
publish = false

[dependencies]
ark-ff = "0.3.0"
ark-ec = "0.3.0"
ark-poly = "0.3.0"
ark-vesta = "0.3.0"
blake2 = "*"
