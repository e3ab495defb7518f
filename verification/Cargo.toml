[package]
name = "minesweeper"
version = "0.1.0"
edition = "2021"
publish = false

[dependencies]
petname = "1"
rand = "0.8"
rand_seeder = "0.2"
