[package]
name = "tearchan"
version = "0.1.0"
edition = "2021"
publish = false

[dependencies]
serde = { version = "1", features = ["derive"] }
once_cell = "1"
nalgebra-glm = "*"
bytemuck = "1"
