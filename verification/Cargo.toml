[package]
name = "accumulator"
version = "0.1.0"
edition = "2021"
publish = false

[dependencies]
cid = "=0.11.3"
fvm_ipld_amt = "=0.7.7"
fvm_ipld_blockstore = "=0.3.2"
fvm_ipld_encoding = "=0.5.4"
multihash-codetable = { version = "*", default-features = false, features = ["blake2b"] }
