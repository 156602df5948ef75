[package]
name = "nerdfix"
version = "0.4.2"
edition = "2021"
publish = false

[dependencies]
bytesize = "1"
camino = "1"
clap = { version = "4", features = ["derive"] }
clap_complete = "4"
content_inspector = "0.2"
indexmap = "2"
inquire = "*"
itertools = "*"
json-strip-comments = "*"
miette = { version = "*", features = ["fancy"] }
noodler = "*"
nu-ansi-term = "*"
regex = "1"
serde = { version = "1", features = ["derive"] }
serde_json = "1"
thiserror = "1"
tracing = "0.1"
tracing-subscriber = "0.3"
walkdir = "2"
