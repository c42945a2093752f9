[package]
name = "scan_moodle"
version = "0.1.0"
edition = "2021"
publish = false

[dependencies]
bumpalo = "*"
clap = { version = "*", features = ["derive"] }
csv = "*"
mago-database = "=1.24.0"
mago-php-version = "=1.24.0"
mago-reporting = "=1.24.0"
mago-span = "=1.24.0"
mago-syntax = "=1.24.0"
mago-syntax-core = "=1.24.0"
mago-text-edit = "=1.24.0"
rayon = "*"
roxmltree = "*"
serde = { version = "*", features = ["derive"] }
serde_json = { version = "*", features = ["preserve_order"] }
tar = "*"
walkdir = "*"
zstd = "*"
