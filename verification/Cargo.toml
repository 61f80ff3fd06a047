[package]
name = "tokbench"
version = "0.1.0"
edition = "2021"
publish = false

[dependencies]
ahash = "=0.8.12"
anyhow = "1"
base64 = "=0.22.1"
bpe-openai = "=0.3.2"
clap = { version = "=4.6.7", features = ["derive"] }
open = "5"
rayon = "=1.12.0"
rustc-hash = "=2.1.3"
serde = { version = "1", features = ["derive"] }
serde_json = "=1.0.154"
tiktoken-rs = "=0.12.1"
tokenizers = { version = "=0.23.2", default-features = false, features = ["fancy-regex"] }
kitoken = "=0.11.1"
fastokens = "=0.3.5"
tokie = "=0.1.4"
sentencepiece = "=0.13.2"
tk-encode = "=0.1.0-rc.3"
tk-convert = "=0.1.0-rc.3"
tk-serialize = "=0.1.0-rc.3"

[dev-dependencies]
memory-stats = "1"
