[package]
name = "quadratic_jit"
version = "0.1.0"
edition = "2021"
publish = false

[dependencies]
itertools = "0.13"
lazy_static = "1.4"
num-traits = "0.2"
p3-challenger = "0.1"
p3-commit = "0.1"
p3-dft = "0.1"
p3-field = "0.1"
p3-fri = "0.1"
p3-koala-bear = "0.1"
p3-merkle-tree = "0.1"
p3-poseidon2 = "0.1"
p3-symmetric = "0.1"
p3-uni-stark = "0.1"
