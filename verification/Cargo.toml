[package]
name = "quickheap"
version = "0.1.0"
edition = "2021"
publish = false

[dependencies]
rand = "0.9"
fastrand = "2"
dary_heap = "*"
fibonacci_heap = "*"
indexset = "*"
orx-priority-queue = "*"
pheap = "*"
radix-heap = "*"
