//! Verified building blocks of a PLONK verifier over the BN254 curve:
//! prime-field elements, coefficient-form polynomials with interpolation,
//! and the checks and bookkeeping that a proof verification performs
//! around its elliptic-curve work.

pub mod field;
pub mod evaluation;
pub mod interpolation;
pub mod polynomial;
pub mod curve;
pub mod plonk_verifier;
pub mod recursion;
