[package]
name = "mzsh_commandenum"
version = "0.1.0"
edition = "2021"
publish = false

[dependencies]
bincode = { version = "2.0.1", default-features = false, features = ["std"] }
int-enum = "0.5"
serde = "1"
syn = "2"
quote = "1"
proc-macro2 = "1"
