//! The single-precision values a matrix holds, represented by their `u32` bit
//! patterns, and the arithmetic, parsing and formatting that the library
//! takes from a software floating-point implementation.
//!
//! Every operation of `rustc_apfloat` is a pure function of its arguments'
//! bit patterns, so each result below is given a name that the callers'
//! contracts speak of.

use rustc_apfloat::Float;
use vstd::prelude::*;

verus! {

/// The bit pattern of the product of two single-precision values,
/// rounded to nearest, ties to even.
pub uninterp spec fn mul_single(a: u32, b: u32) -> u32;

/// The bit pattern of the sum of two single-precision values,
/// rounded to nearest, ties to even.
pub uninterp spec fn add_single(a: u32, b: u32) -> u32;

/// The single-precision value a text token denotes, or `None` where the
/// token is not a real-number token.
pub uninterp spec fn single_of_text(t: Seq<char>) -> Option<u32>;

/// The default textual rendering of a single-precision value.
pub uninterp spec fn text_of_single(b: u32) -> Seq<char>;

/// Relies on `rustc_apfloat::ieee::Single`: multiplication (`Float::mul_r`,
/// round to nearest, ties to even) is a pure function of the two operands'
/// bit patterns.
#[verifier::external_body]
pub(crate) fn mul_bits(a: u32, b: u32) -> (r: u32)
    ensures
        r == mul_single(a, b),
{
    let x = rustc_apfloat::ieee::Single::from_bits(a as u128);
    let y = rustc_apfloat::ieee::Single::from_bits(b as u128);
    (x * y).value.to_bits() as u32
}

/// Relies on `rustc_apfloat::ieee::Single`: addition (`Float::add_r`,
/// round to nearest, ties to even) is a pure function of the two operands'
/// bit patterns.
#[verifier::external_body]
pub(crate) fn add_bits(a: u32, b: u32) -> (r: u32)
    ensures
        r == add_single(a, b),
{
    let x = rustc_apfloat::ieee::Single::from_bits(a as u128);
    let y = rustc_apfloat::ieee::Single::from_bits(b as u128);
    (x + y).value.to_bits() as u32
}

/// Relies on `rustc_apfloat::ieee::Single`: `Float::from_str_r` returns a
/// value (rounded to nearest, ties to even) or a parse error, and both
/// depend on the characters of the token alone. Its decimal-exponent
/// bookkeeping is 32-bit, so tokens are kept short enough that every
/// digit position fits an `i32`.
#[verifier::external_body]
pub(crate) fn parse_single(t: &str) -> (r: Option<u32>)
    requires
        t@.len() < 0x2000_0000,
    ensures
        r == single_of_text(t@),
{
    match t.parse::<rustc_apfloat::ieee::Single>() {
        Ok(v) => Some(v.to_bits() as u32),
        Err(_) => None,
    }
}

/// Relies on `rustc_apfloat::ieee::Single`: its `Display` implementation
/// renders a value from its bit pattern alone.
#[verifier::external_body]
pub(crate) fn format_single(b: u32) -> (r: String)
    ensures
        r@ == text_of_single(b),
{
    format!("{}", rustc_apfloat::ieee::Single::from_bits(b as u128))
}

} // verus!
