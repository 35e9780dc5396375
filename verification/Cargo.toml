[package]
name = "task_runtime"
version = "0.1.0"
edition = "2021"
publish = false

[dependencies]
slotmap = "1"
threadpool = "1"
