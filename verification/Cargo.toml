[package]
name = "typspell"
version = "0.1.0"
edition = "2021"
publish = false

[dependencies]
typst-syntax = "=0.15.1"
zspell = { version = "=0.5.5", features = ["unstable-suggestions"] }
annotate-snippets = "=0.9.2"
clap = { version = "=4.6.7", features = ["derive"] }
notify = "=8.2.0"
notify-debouncer-mini = "=0.7.0"
serde_json = "1"
