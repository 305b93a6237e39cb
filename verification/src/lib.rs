//! ML-KEM: a module-lattice key-encapsulation mechanism.
//!
//! The crate holds the protocol layer: the byte codec, coefficient
//! compression, seed expansion, noise sampling, the K-PKE public-key
//! encryption scheme and the key-encapsulation mechanism built on it.
//! Hashing, the number-theoretic transform, polynomial addition and the
//! random-bit generator come from other crates.

pub mod arith;
pub mod bits;
pub mod codec;
pub mod compress;
pub mod drbg;
pub mod hashing;
pub mod lattice;
pub mod ml_kem;
pub mod params;
pub mod sampling;
