[package]
name = "symbol_table"
version = "0.1.0"
edition = "2021"
publish = false

[dependencies]
rust-lapper = "=1.3.0"
enderpy_python_parser = "=0.1.0"
