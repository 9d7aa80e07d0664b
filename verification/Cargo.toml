[package]
name = "reter_linhas_com_info_das_chaves"
version = "0.1.0"
edition = "2021"
publish = false

[dependencies]
blake3 = "*"
clap = { version = "*", features = ["derive"] }
csv = "*"
execution-time = "*"
rand = "*"
rayon = "*"
thiserror = "*"
