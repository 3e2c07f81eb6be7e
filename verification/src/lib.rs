//! Exact arithmetic over the prime field of order `7 * 2^26 + 1`: the
//! field, a number-theoretic transform on it, and dense polynomials with
//! fast multiplication and division.
//!
//! Every function carries a contract that Verus proves. The contracts
//! speak of mathematical models: an element of the field is its residue,
//! a polynomial the sequence of its coefficients, a transform the values
//! of a polynomial at the powers of a root of unity.

pub mod big_integer;
pub mod bit_reverse;
pub mod conversions;
pub mod convolution;
pub mod dft;
pub mod division;
pub mod division_laws;
pub mod equality;
pub mod error;
pub mod fermat;
pub mod fft;
pub mod field;
pub mod int_polynomial;
pub mod matrix;
pub mod operators;
pub mod orthogonality;
pub mod poly_div;
pub mod poly_spec;
pub mod ring_laws;
pub mod roots;
pub mod round_trip;
pub mod series;
pub mod small_ntt;
pub mod sums;
