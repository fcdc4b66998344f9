[package]
name = "env_select"
version = "0.1.0"
edition = "2021"
publish = false

[dependencies]
indexmap = { version = "2", features = ["serde"] }
dotenv-parser = "0.1"
serde = { version = "1", features = ["derive"] }
toml = "0.8"
clap = { version = "4", features = ["derive"] }
clap_complete = { version = "4", features = ["unstable-dynamic"] }
anyhow = "1"
log = "0.4"
env_logger = "0.11"
ctrlc = "3"
dialoguer = "0.11"
termcolor = "1"
atty = "0.2"
smol = "2"
