//! A dense, row-major matrix of IEEE 754 single-precision values, carried by
//! their bit patterns, with a whitespace-separated text parser, a bracketed
//! text formatter, row access, and in-place elementary row operations.

use vstd::prelude::*;

pub mod single;
pub mod text;
pub mod matrix;

verus! {

pub use crate::matrix::Matrix;
pub use crate::matrix::MatrixError;

} // verus!
