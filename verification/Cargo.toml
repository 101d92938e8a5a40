[package]
name = "tiny-dfr"
version = "0.2.0"
edition = "2021"
publish = false

[dependencies]
anyhow = "1"
cairo-rs = "*"
drm = "*"
icon-loader = "*"
input = "0.8"
input-linux = "0.6"
input-linux-sys = "0.8"
libc = "0.2"
nix = "0.26"
privdrop = "0.5"
librsvg = "*"
serde = { version = "1", features = ["derive"] }
toml = "0.7"
