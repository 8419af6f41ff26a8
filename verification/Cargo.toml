[package]
name = "llvm-ir-analysis"
version = "0.1.0"
edition = "2021"
publish = false

[dependencies]
llvm-ir = { version = "=0.11.3", features = ["llvm-14", "prefer-dynamic"] }
log = "=0.4.34"
