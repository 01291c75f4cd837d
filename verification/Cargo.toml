[package]
name = "kak-tree"
version = "0.1.0"
edition = "2021"
publish = false

[dependencies]
clap = "=4.6.7"
itertools = "=0.15.0"
serde = { version = "=1.0.229", features = ["derive"] }
slog-scope = "=4.4.1"
sloggers = "=2.2.0"
toml = "=1.1.8"
tree-sitter = "=0.27.1"
tree-sitter-bash = "*"
tree-sitter-c = "*"
tree-sitter-c-sharp = "*"
tree-sitter-cpp = "*"
tree-sitter-css = "*"
tree-sitter-go = "*"
tree-sitter-haskell = "*"
tree-sitter-html = "*"
tree-sitter-java = "*"
tree-sitter-javascript = "*"
tree-sitter-json = "=0.24.8"
tree-sitter-julia = "*"
tree-sitter-ocaml = "*"
tree-sitter-php = "*"
tree-sitter-python = "*"
tree-sitter-ruby = "*"
tree-sitter-rust = "=0.24.2"
tree-sitter-scala = "*"
tree-sitter-typescript = "*"
