[package]
name = "bert_pipeline"
version = "0.1.0"
edition = "2021"
publish = false

[dependencies]
tokenizers = { version = "*", default-features = false, features = ["onig"] }
tch = "*"
clap = { version = "4", features = ["derive"] }
kdam = "*"
log = "0.4"
log4rs = "1"
thiserror = "1"
