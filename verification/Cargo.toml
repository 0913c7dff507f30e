[package]
name = "systems_study"
version = "0.1.0"
edition = "2021"
publish = false

[dependencies]
libc = "0.2"
kvm-bindings = "*"
kvm-ioctls = "*"
vm-memory = { version = "*", features = ["backend-mmap"] }
virtio-queue = { version = "0.18", features = ["test-utils"] }
userfaultfd = { version = "*", features = ["linux5_7"] }
