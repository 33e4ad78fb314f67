//! Shamir's secret sharing over a finite field: a secret is split into `n` shares of
//! which any `k` reconstruct it, and shares are written to and read from text.

pub mod algebra;
pub mod codec;
pub mod entropy;
pub mod field;
pub mod gf256;
pub mod hexcode;
pub mod lagrange;
pub mod polynomial;
pub mod recovery;
pub mod shamir;
pub mod share;
