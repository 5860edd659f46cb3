[package]
name = "sort_str_to_sql"
version = "0.1.0"
edition = "2021"
publish = false

[dev-dependencies]
regex = "1"
