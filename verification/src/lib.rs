//! Dense matrices over a generic scalar, with inversion by LU decomposition
//! with partial pivoting.
//!
//! [`matrix`] holds the matrix and its shape, [`scalar`] what an entry must be
//! able to do, [`lup`] the decomposition, [`inverse`] the inversion and
//! [`display`] the rendering as text. Each function states what it returns
//! over the matrix as a sequence of rows.
//!
//! [`field`] states the laws of exact arithmetic, [`binary`] gives the field
//! of two elements, and [`theorems`] proves from those laws that inversion
//! returns the inverse of every matrix that has one, and `None` for the
//! others. [`linear`], [`factors`] and [`solving`] hold the lemmas on the way.
//! [`identity`] proves, for every scalar, that the identity is its own inverse.

pub mod binary;
pub mod display;
pub mod factors;
pub mod field;
pub mod identity;
pub mod inverse;
pub mod linear;
pub mod lup;
pub mod matrix;
pub mod scalar;
pub mod solving;
pub mod theorems;
