[package]
name = "ml_kem"
version = "0.1.0"
edition = "2021"
publish = false

[dependencies]
aes_ctr_drbg = "=0.0.2"
module-lwe = "=0.1.5"
ntt = "=0.1.9"
polynomial-ring = "=0.5.1"
ring-lwe = "=0.1.8"
sha3 = "=0.10.9"
