[package]
name = "fedramp-aion"
version = "0.1.0"
edition = "2021"
publish = false

[dependencies]
aion-context = "*"
anyhow = "1"
blake3 = "1"
clap = { version = "4", features = ["derive", "env"] }
jsonschema = { version = "*", default-features = false }
referencing = { version = "*", default-features = false }
serde = { version = "1", features = ["derive"] }
serde_json = "1"
sha2 = "0.10"
time = { version = "0.3", features = ["formatting", "parsing"] }
ureq = "2"
