[package]
name = "dwarf_stats"
version = "0.1.0"
edition = "2021"
publish = false

[dependencies]
gimli = "*"
goblin = "*"
mach_object = "*"
