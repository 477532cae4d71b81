[package]
name = "student_performance"
version = "0.1.0"
edition = "2021"
publish = false

[dependencies]
bincode = "=1.3.3"
csv = "=1.4.0"
linfa = "=0.7.1"
linfa-logistic = { version = "=0.7.1", features = ["serde"] }
linfa-trees = { version = "=0.7.1", features = ["serde"] }
ndarray = "=0.15.6"
plotters = { version = "=0.3.7", default-features = false, features = ["svg_backend", "errorbar", "point_series"] }
rand = "=0.8.8"
serde = { version = "=1.0.229", features = ["derive"] }
