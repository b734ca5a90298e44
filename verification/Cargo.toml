[package]
name = "fadupes"
version = "0.1.0"
edition = "2021"
publish = false

[dependencies]
clap = "4"
claxon = "0.4"
ctrlc = "3"
hound = "3"
indicatif = "0.17"
rayon = "1"
serde = { version = "1", features = ["derive"] }
serde_json = "1"
walkdir = "2"
