[package]
name = "i18n_table"
version = "0.1.0"
edition = "2021"
publish = false

[dependencies]
serde_yaml = "*"
