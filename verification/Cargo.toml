[package]
name = "chug"
version = "0.1.0"
edition = "2021"
publish = false

[dependencies]
anyhow = "1"
arwen = "*"
clap = { version = "4", features = ["derive"] }
data-encoding = "2"
diesel = { version = "2", features = ["sqlite", "returning_clauses_for_sqlite_3_35"] }
flate2 = "1"
goblin = "*"
memchr = "2"
ptree = "*"
rayon = "1"
reqwest = { version = "0.12", features = ["blocking"] }
ring = "0.17"
serde = { version = "1", features = ["derive"] }
serde_json = "1"
tar = "0.4"
terminal_size = "*"
