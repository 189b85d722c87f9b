[package]
name = "xuzzel"
version = "0.1.0"
edition = "2021"
publish = false

[dependencies]
anyhow = "1"
cairo-rs = "*"
clap = { version = "4", features = ["derive"] }
dirs = "*"
freedesktop-icons = "*"
image = { version = "*", default-features = false, features = ["png"] }
libc = "0.2"
once_cell = "1"
pango = "*"
pangocairo = "*"
resvg = "*"
serde = { version = "1", features = ["derive"] }
shlex = "1"
toml = "*"
which = "*"
