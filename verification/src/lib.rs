//! Short-Weierstrass elliptic curves over prime fields: field arithmetic,
//! the point addition law, scalar multiplication, modular square roots,
//! ECDSA signing and verification, and point enumeration for small curves.

pub mod bignum;
pub mod curve;
pub mod ecdsa;
pub mod enumerate;
pub mod error;
pub mod field;
pub mod group;
pub mod hex;
pub mod primes;
pub mod residue;
pub mod scalar;
