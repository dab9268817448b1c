[package]
name = "graphql-ish-schema-validator"
version = "0.1.0"
edition = "2021"
publish = false

[dependencies]
apollo-parser = "*"
regex = "*"
indexmap = { version = "*", features = ["serde"] }
serde = { version = "*", features = ["derive"] }
serde_json = "*"
serde-saphyr = "*"
thiserror = "*"
tracing = "*"
tracing-subscriber = { version = "*", features = ["env-filter"] }
clap = { version = "*", features = ["derive"] }
miette = "*"
