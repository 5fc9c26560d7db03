[package]
name = "didyoumean"
version = "1.1.4"
edition = "2021"
publish = false

[dependencies]
atty = "=0.2.14"
clap = { version = "=3.2.25", features = ["derive"] }
cli-clipboard = "=0.4.0"
colored = "=2.2.0"
dialoguer = "=0.10.4"
dirs = "=4.0.0"
futures-util = "=0.3.34"
indicatif = "=0.17.11"
nix = "=0.23.2"
reqwest = { version = "=0.11.27", features = ["stream"] }
tokio = { version = "=1.54.1", features = ["macros", "rt-multi-thread"] }
