//! Lattice-basis reduction for NTRU-style cryptanalysis.
//!
//! The crate's core is a lattice reduction engine: an LLL basis reducer, a
//! BKZ driver built on top of it, and the block enumerator that BKZ uses to
//! find locally shortest vectors.  All bookkeeping that a floating-point
//! implementation would keep approximately is kept here as exact arbitrary
//! precision rational numbers, so every comparison the engine makes is exact.
//! Around the engine sit the collaborators: modular scalar arithmetic, the
//! quotient-ring polynomial arithmetic of NTRU, lattice-basis construction
//! from a public key, and candidate search over a reduced basis.

pub mod big;
pub mod bkz;
pub mod cryptoanalysis;
pub mod frac;
pub mod linalg;
pub mod lll;
pub mod ntru;
pub mod polyxnm1;
pub mod rat;
pub mod service;
pub mod zp;
