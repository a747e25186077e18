[package]
name = "todo_list"
version = "0.1.0"
edition = "2021"
publish = false

[dependencies]
chrono = "*"
dirs = "*"
prettytable-rs = "*"
structopt = "*"

[dev-dependencies]
serde_json = "*"
