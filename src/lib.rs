//! Exact LLL lattice basis reduction on integer bases.
//!
//! A basis is a list of columns, each a vector of `i64` entries. All
//! arithmetic is exact: the Gram-Schmidt data is kept in fraction-free form
//! (Gram determinants and scaled projection coefficients), so every
//! comparison the reduction makes is decided without rounding error.

pub mod basis;
pub mod gram;
pub mod hadamard;
pub mod lll;
pub mod ops;
pub mod orthogonal;
