//! Exact-arithmetic core of a dense-matrix decomposition library.
//!
//! The numerical decompositions that need square roots (QR, Cholesky, the
//! singular-value and eigenvalue iterations) live outside the verified
//! library; here stands everything that survives exact rational arithmetic:
//! LUP factorization with partial pivoting, forward and backward
//! substitution, and the derived operations solve, inverse and determinant,
//! each with a proved reconstruction contract.

pub mod bigint;
pub mod error;
pub mod rational;
pub mod matrix;
pub mod lup;
pub mod substitution;
pub mod solve;
pub mod det;
pub mod laws;
