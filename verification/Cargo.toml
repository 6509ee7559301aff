[package]
name = "aoc2023"
version = "0.1.0"
edition = "2021"
publish = false

[dependencies]
num = "*"
glam = "*"
itertools = "*"
regex = "*"
nom = "*"
enum-iterator = "*"
z3 = "*"
aoc-runner = "*"
aoc-runner-derive = "*"
