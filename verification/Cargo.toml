[package]
name = "ap_outbox"
version = "0.1.0"
edition = "2021"
publish = false

[dependencies]
activitist = "*"
async-trait = "*"
