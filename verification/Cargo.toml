[package]
name = "radguy"
version = "0.1.0"
edition = "2021"
publish = false

[dependencies]
fixedbitset = "0.5"
rand = "0.9"
slotmap = "1"
orx-priority-queue = "1"
