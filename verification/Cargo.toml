[package]
name = "hkdf_tree"
version = "0.1.0"
edition = "2021"
publish = false

[dependencies]
hkdf = "0.12"
sha2 = "0.10"
base64 = "0.22"
zeroize = "1"
thiserror = "2"
anyhow = "1"
clap = { version = "4", features = ["derive"] }
serde = { version = "1", features = ["derive"] }
serde_yaml_ng = "0.10"
printpdf = "0.7"
qrcode = { version = "0.14", default-features = false }
