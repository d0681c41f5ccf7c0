//! Exact rational linear algebra: canonical fractions and Gaussian
//! elimination (row echelon form, reduced row echelon form, inverse,
//! linear-independence testing) over matrices of fractions.

pub mod arith;
pub mod fracs;
pub mod mats;
pub mod rowops;
pub mod simplify;
pub mod ops;
pub mod elim;
pub mod laws;
