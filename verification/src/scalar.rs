//! Scalar entries as 32-bit IEEE 754 words.
//!
//! Matrix entries are carried as `u32` bit patterns of IEEE 754 single
//! precision values; the word 0 is the canonical zero entry. Arithmetic on
//! the words is delegated to `rustc_apfloat`, a software implementation of
//! IEEE 754, through the trusted calls below; each result is named by an
//! uninterpreted function of the argument words, so that contracts can
//! speak of products and sums without restating the arithmetic.

use vstd::prelude::*;

use rustc_apfloat::Float;
use rustc_apfloat::Round;
use rustc_apfloat::ieee::Single;

verus! {

/// The word of the IEEE 754 single-precision product of two words
/// (round to nearest, ties to even).
pub uninterp spec fn mul_bits(a: u32, b: u32) -> u32;

/// The word of the IEEE 754 single-precision sum of two words
/// (round to nearest, ties to even).
pub uninterp spec fn add_bits(a: u32, b: u32) -> u32;

/// The word of the IEEE 754 single-precision difference of two words
/// (round to nearest, ties to even).
pub uninterp spec fn sub_bits(a: u32, b: u32) -> u32;

/// The nonzero count that a density word asks of a matrix with `total`
/// cells: `total` converted to single precision, multiplied by the density
/// word, and taken toward zero to an integer, saturated to `usize`.
pub uninterp spec fn density_count_of(total: usize, density: u32) -> usize;

/// Relies on `rustc_apfloat::ieee::Single`: `mul_r` with round to nearest,
/// ties to even computes the IEEE 754 single-precision product, a function
/// of the two argument words alone.
#[verifier::external_body]
pub(crate) fn word_mul(a: u32, b: u32) -> (r: u32)
    ensures
        r == mul_bits(a, b),
{
    let x = Single::from_bits(a as u128);
    let y = Single::from_bits(b as u128);
    (x * y).value.to_bits() as u32
}

/// Relies on `rustc_apfloat::ieee::Single`: `add_r` with round to nearest,
/// ties to even computes the IEEE 754 single-precision sum, a function of
/// the two argument words alone.
#[verifier::external_body]
pub(crate) fn word_add(a: u32, b: u32) -> (r: u32)
    ensures
        r == add_bits(a, b),
{
    let x = Single::from_bits(a as u128);
    let y = Single::from_bits(b as u128);
    (x + y).value.to_bits() as u32
}

/// Relies on `rustc_apfloat::ieee::Single`: `sub_r` with round to nearest,
/// ties to even computes the IEEE 754 single-precision difference, a
/// function of the two argument words alone.
#[verifier::external_body]
pub(crate) fn word_sub(a: u32, b: u32) -> (r: u32)
    ensures
        r == sub_bits(a, b),
{
    let x = Single::from_bits(a as u128);
    let y = Single::from_bits(b as u128);
    (x - y).value.to_bits() as u32
}

/// Relies on `rustc_apfloat::ieee::Single`: `from_u128` (round to nearest)
/// and `to_u128_r` toward zero mirror the conversions `total as f32` and
/// `f32 as usize`, so the result is floor(`total` as single * density),
/// saturated to the `usize` range; a function of the arguments alone.
#[verifier::external_body]
pub(crate) fn density_count(total: usize, density: u32) -> (r: usize)
    ensures
        r == density_count_of(total, density),
{
    let t = Single::from_u128(total as u128).value;
    let p = (t * Single::from_bits(density as u128)).value;
    let mut exact = false;
    p.to_u128_r(usize::BITS as usize, Round::TowardZero, &mut exact).value as usize
}

} // verus!
