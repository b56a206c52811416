[package]
name = "social_graph"
version = "0.1.0"
edition = "2021"

[dependencies]
plotters = "0.3"
