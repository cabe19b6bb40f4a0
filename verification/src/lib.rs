//! Jump distances between states of the xoroshiro128+ generator.
//!
//! The state transition of xoroshiro128+ is linear over GF(2). This crate
//! holds the algebra needed to jump a state forward by `k` steps in
//! logarithmic time and to recover `k` from two states: bits and dense
//! matrices over GF(2), the characteristic polynomial of a matrix,
//! polynomials over GF(2) held in a pair of 128-bit registers, and a
//! discrete logarithm in the quotient ring modulo the characteristic
//! polynomial.

pub mod berkowitz;
pub mod error;
pub mod gf2int;
pub mod gf2vec;
pub mod mat_builder;
pub mod matrix;
pub mod pohlig_hellman;
pub mod rng;
pub mod xoroshiro;
