[package]
name = "kytea_tokenizer"
version = "0.1.0"
edition = "2021"
publish = false

[dependencies]
libc = "0.2"
num-derive = "0.3"
num-traits = "0.2"
serde = { version = "1", features = ["derive"] }
strum = { version = "0.24", features = ["derive"] }
tantivy = { version = "0.19", default-features = false }

[dev-dependencies]
serde_json = "1"
