[package]
name = "mdslides"
version = "0.1.0"
edition = "2021"
publish = false

[dependencies]
streaming-iterator = "=0.1.9"
termion = "=4.0.6"
tokio = { version = "=1.54.1", features = ["macros", "rt-multi-thread", "time"] }
tree-sitter = "=0.27.1"
tree-sitter-java = "=0.23.5"
tree-sitter-python = "=0.25.0"
tree-sitter-rust = "=0.24.2"
viuer = { version = "=0.11.0", features = ["print-file"] }
