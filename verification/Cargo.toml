[package]
name = "arith_lexer"
version = "0.1.0"
edition = "2021"

[dev-dependencies]
regex = "1"
