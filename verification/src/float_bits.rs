//! Numeric promotion to the two floating-point kinds, computed on IEEE 754
//! bit patterns by the `rustc_apfloat` soft-float library, so that no
//! machine float is touched. Each conversion is a function of its argument
//! alone: round-to-nearest-even, as the wire format's readers do.
use vstd::prelude::*;

verus! {

/// The IEEE 754 single-precision bit pattern nearest to an integer.
pub uninterp spec fn single_of_i128(n: i128) -> u32;

/// The IEEE 754 double-precision bit pattern nearest to an integer.
pub uninterp spec fn double_of_i128(n: i128) -> u64;

/// The single-precision bit pattern nearest to a double-precision value.
pub uninterp spec fn single_of_double_bits(b: u64) -> u32;

/// The double-precision bit pattern of a single-precision value, which
/// the wider format holds exactly.
pub uninterp spec fn double_of_single_bits(b: u32) -> u64;

/// Relies on rustc_apfloat's `Single::from_i128`: the nearest
/// single-precision value to `n`, depending on `n` alone.
#[verifier::external_body]
pub(crate) fn single_bits_from_int(n: i128) -> (r: u32)
    ensures
        r == single_of_i128(n),
{
    let x: rustc_apfloat::StatusAnd<rustc_apfloat::ieee::Single> = rustc_apfloat::Float::from_i128(
        n,
    );
    rustc_apfloat::Float::to_bits(x.value) as u32
}

/// Relies on rustc_apfloat's `Double::from_i128`: the nearest
/// double-precision value to `n`, depending on `n` alone.
#[verifier::external_body]
pub(crate) fn double_bits_from_int(n: i128) -> (r: u64)
    ensures
        r == double_of_i128(n),
{
    let x: rustc_apfloat::StatusAnd<rustc_apfloat::ieee::Double> = rustc_apfloat::Float::from_i128(
        n,
    );
    rustc_apfloat::Float::to_bits(x.value) as u64
}

/// Relies on rustc_apfloat's `FloatConvert`: the nearest single-precision
/// value to a double-precision one, depending on its bits alone.
#[verifier::external_body]
pub(crate) fn single_bits_from_double(b: u64) -> (r: u32)
    ensures
        r == single_of_double_bits(b),
{
    let d: rustc_apfloat::ieee::Double = rustc_apfloat::Float::from_bits(b as u128);
    let mut loses_info = false;
    let s: rustc_apfloat::StatusAnd<rustc_apfloat::ieee::Single> = rustc_apfloat::FloatConvert::convert(
        d,
        &mut loses_info,
    );
    rustc_apfloat::Float::to_bits(s.value) as u32
}

/// Relies on rustc_apfloat's `FloatConvert`: the double-precision value
/// of a single-precision one, depending on its bits alone.
#[verifier::external_body]
pub(crate) fn double_bits_from_single(b: u32) -> (r: u64)
    ensures
        r == double_of_single_bits(b),
{
    let s: rustc_apfloat::ieee::Single = rustc_apfloat::Float::from_bits(b as u128);
    let mut loses_info = false;
    let d: rustc_apfloat::StatusAnd<rustc_apfloat::ieee::Double> = rustc_apfloat::FloatConvert::convert(
        s,
        &mut loses_info,
    );
    rustc_apfloat::Float::to_bits(d.value) as u64
}

} // verus!
