//! A reduced Whirlpool-style hash: GF(2^8) polynomial arithmetic, a 4x4
//! matrix round function, and a Miyaguchi-Preneel compression chain that
//! folds padded input blocks into a 16-byte digest.

pub mod poly;
pub mod bipoly;
pub mod sbox;
pub mod matrix;
pub mod engine;
