[package]
name = "array_recipes"
version = "0.1.0"
edition = "2021"
publish = false

[dependencies]
num-integer = "0.1"
chrono = "0.4"
ndarray = "0.16"
num-complex = "0.4"
rustfft = "6"
rand = "0.8"
rand_distr = "0.4"
serde = { version = "1", features = ["derive"] }
serde_json = "1"
csv = "1"
ndarray-csv = "*"
thiserror = "*"
anyhow = "1"
bincode = "1"
linfa = "*"
linfa-datasets = { version = "*", features = ["iris", "winequality", "generate"] }
linfa-reduction = "*"
linfa-svm = "*"
linfa-tsne = "*"
linfa-kernel = "*"
smartcore = { version = "*", features = ["serde", "datasets"] }
