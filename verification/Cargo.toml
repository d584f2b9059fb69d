[package]
name = "fabbula"
version = "0.1.0"
edition = "2021"
publish = false

[dependencies]
anyhow = "1"
clap = { version = "4", features = ["derive"] }
flate2 = "1"
gds21 = "*"
image = { version = "*", default-features = false, features = ["png", "jpeg", "bmp", "gif"] }
qrcode = { version = "*", default-features = false }
rayon = "1"
resvg = { version = "*", default-features = false }
rstar = "*"
serde = { version = "1", features = ["derive"] }
toml = "*"
tracing = "0.1"
tracing-subscriber = { version = "0.3", features = ["env-filter"] }
