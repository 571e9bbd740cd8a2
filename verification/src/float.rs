//! Floating-point values, carried as the bit patterns of their IEEE 754
//! double representation. Sign tests, negation, equality and ordering are bit
//! manipulations and are implemented here directly; parsing and rounding
//! arithmetic go through trusted calls into a software float library, whose
//! results are named, not restated.

use rustc_apfloat::Float;
use rustc_apfloat::FloatConvert;
use vstd::prelude::*;

verus! {

/// The sign bit of a double.
pub const DOUBLE_SIGN_MASK: u64 = 0x8000_0000_0000_0000;

/// The exponent bits of a double.
pub const DOUBLE_EXP_MASK: u64 = 0x7FF0_0000_0000_0000;

/// The mantissa bits of a double.
pub const DOUBLE_MANTISSA_MASK: u64 = 0x000F_FFFF_FFFF_FFFF;

/// Whether the bit pattern encodes a NaN: all exponent bits set and a
/// non-zero mantissa.
pub open spec fn spec_is_nan_bits(b: u64) -> bool {
    b & DOUBLE_EXP_MASK == DOUBLE_EXP_MASK && b & DOUBLE_MANTISSA_MASK != 0
}

pub fn is_nan_bits(b: u64) -> (r: bool)
    ensures
        r == spec_is_nan_bits(b),
{
    b & DOUBLE_EXP_MASK == DOUBLE_EXP_MASK && b & DOUBLE_MANTISSA_MASK != 0
}

/// Whether the bit pattern encodes a zero of either sign.
pub open spec fn spec_is_zero_bits(b: u64) -> bool {
    b & (DOUBLE_EXP_MASK | DOUBLE_MANTISSA_MASK) == 0
}

pub fn is_zero_bits(b: u64) -> (r: bool)
    ensures
        r == spec_is_zero_bits(b),
{
    b & (DOUBLE_EXP_MASK | DOUBLE_MANTISSA_MASK) == 0
}

/// IEEE negation flips the sign bit and nothing else.
pub open spec fn spec_neg_bits(b: u64) -> u64 {
    b ^ DOUBLE_SIGN_MASK
}

pub fn neg_bits(b: u64) -> (r: u64)
    ensures
        r == spec_neg_bits(b),
{
    b ^ DOUBLE_SIGN_MASK
}

/// IEEE equality of two non-NaN doubles: the same bits, or two zeros of
/// opposite sign. (With a NaN on either side the result is false, as IEEE
/// prescribes.)
pub open spec fn spec_eq_bits(a: u64, b: u64) -> bool {
    &&& !spec_is_nan_bits(a)
    &&& !spec_is_nan_bits(b)
    &&& (a == b || (spec_is_zero_bits(a) && spec_is_zero_bits(b)))
}

pub fn eq_bits(a: u64, b: u64) -> (r: bool)
    ensures
        r == spec_eq_bits(a, b),
{
    !is_nan_bits(a) && !is_nan_bits(b) && (a == b || (is_zero_bits(a) && is_zero_bits(b)))
}

/// Maps a double's bits to a key whose unsigned order is the IEEE order of
/// the doubles: negative values are complemented, positive values have the
/// sign bit set. The two zeros keep distinct keys, which `spec_lt_bits`
/// accounts for.
pub open spec fn spec_order_key(b: u64) -> u64 {
    if b & DOUBLE_SIGN_MASK != 0 {
        !b
    } else {
        b | DOUBLE_SIGN_MASK
    }
}

pub fn order_key(b: u64) -> (r: u64)
    ensures
        r == spec_order_key(b),
{
    if b & DOUBLE_SIGN_MASK != 0 {
        !b
    } else {
        b | DOUBLE_SIGN_MASK
    }
}

/// IEEE strict order of two non-NaN doubles. (With a NaN on either side the
/// result is false, as IEEE prescribes.)
pub open spec fn spec_lt_bits(a: u64, b: u64) -> bool {
    &&& !spec_is_nan_bits(a)
    &&& !spec_is_nan_bits(b)
    &&& !(spec_is_zero_bits(a) && spec_is_zero_bits(b))
    &&& spec_order_key(a) < spec_order_key(b)
}

pub fn lt_bits(a: u64, b: u64) -> (r: bool)
    ensures
        r == spec_lt_bits(a, b),
{
    !is_nan_bits(a) && !is_nan_bits(b) && !(is_zero_bits(a) && is_zero_bits(b)) && order_key(a)
        < order_key(b)
}

/// IEEE non-strict order of two non-NaN doubles.
pub open spec fn spec_le_bits(a: u64, b: u64) -> bool {
    spec_lt_bits(a, b) || spec_eq_bits(a, b)
}

pub fn le_bits(a: u64, b: u64) -> (r: bool)
    ensures
        r == spec_le_bits(a, b),
{
    lt_bits(a, b) || eq_bits(a, b)
}

/// Negation never makes or unmakes a NaN: the sign bit is outside the
/// exponent and the mantissa.
pub proof fn lemma_neg_keeps_nan(b: u64)
    ensures
        spec_is_nan_bits(spec_neg_bits(b)) == spec_is_nan_bits(b),
{
    assert((b ^ 0x8000_0000_0000_0000u64) & 0x7FF0_0000_0000_0000u64 == b
        & 0x7FF0_0000_0000_0000u64) by (bit_vector);
    assert((b ^ 0x8000_0000_0000_0000u64) & 0x000F_FFFF_FFFF_FFFFu64 == b
        & 0x000F_FFFF_FFFF_FFFFu64) by (bit_vector);
}

/// The bits of the double that a piece of text denotes, if any.
pub uninterp spec fn double_bits_of_text(s: Seq<char>) -> Option<u64>;

/// Relies on `rustc_apfloat::ieee::Double` parsing (`FromStr`): the parsed
/// double is correctly rounded and depends on the text alone.
#[verifier::external_body]
pub fn parse_double_bits(s: &str) -> (r: Option<u64>)
    ensures
        r == double_bits_of_text(s@),
{
    match s.parse::<rustc_apfloat::ieee::Double>() {
        Ok(d) => Some(d.to_bits() as u64),
        Err(_) => None,
    }
}

/// The bits of the IEEE sum of the doubles the arguments encode.
pub uninterp spec fn add_bits_of(a: u64, b: u64) -> u64;

/// Relies on `rustc_apfloat::ieee::Double` addition: IEEE arithmetic depends
/// on the operand bits alone.
#[verifier::external_body]
pub fn add_bits(a: u64, b: u64) -> (r: u64)
    ensures
        r == add_bits_of(a, b),
{
    let x = rustc_apfloat::ieee::Double::from_bits(a as u128);
    let y = rustc_apfloat::ieee::Double::from_bits(b as u128);
    (x + y).value.to_bits() as u64
}

/// The bits of the IEEE difference of the doubles the arguments encode.
pub uninterp spec fn sub_bits_of(a: u64, b: u64) -> u64;

/// Relies on `rustc_apfloat::ieee::Double` subtraction: IEEE arithmetic
/// depends on the operand bits alone.
#[verifier::external_body]
pub fn sub_bits(a: u64, b: u64) -> (r: u64)
    ensures
        r == sub_bits_of(a, b),
{
    let x = rustc_apfloat::ieee::Double::from_bits(a as u128);
    let y = rustc_apfloat::ieee::Double::from_bits(b as u128);
    (x - y).value.to_bits() as u64
}

/// The bits of the IEEE product of the doubles the arguments encode.
pub uninterp spec fn mul_bits_of(a: u64, b: u64) -> u64;

/// Relies on `rustc_apfloat::ieee::Double` multiplication: IEEE arithmetic
/// depends on the operand bits alone.
#[verifier::external_body]
pub fn mul_bits(a: u64, b: u64) -> (r: u64)
    ensures
        r == mul_bits_of(a, b),
{
    let x = rustc_apfloat::ieee::Double::from_bits(a as u128);
    let y = rustc_apfloat::ieee::Double::from_bits(b as u128);
    (x * y).value.to_bits() as u64
}

/// The bits of the IEEE quotient of the doubles the arguments encode.
pub uninterp spec fn div_bits_of(a: u64, b: u64) -> u64;

/// Relies on `rustc_apfloat::ieee::Double` division: IEEE arithmetic depends
/// on the operand bits alone.
#[verifier::external_body]
pub fn div_bits(a: u64, b: u64) -> (r: u64)
    ensures
        r == div_bits_of(a, b),
{
    let x = rustc_apfloat::ieee::Double::from_bits(a as u128);
    let y = rustc_apfloat::ieee::Double::from_bits(b as u128);
    (x / y).value.to_bits() as u64
}

/// The bits of the IEEE remainder of the doubles the arguments encode.
pub uninterp spec fn rem_bits_of(a: u64, b: u64) -> u64;

/// Relies on `rustc_apfloat::ieee::Double::c_fmod`, the truncated `fmod`
/// remainder that the `%` operator computes: it depends on the operand bits
/// alone.
#[verifier::external_body]
pub fn rem_bits(a: u64, b: u64) -> (r: u64)
    ensures
        r == rem_bits_of(a, b),
{
    let x = rustc_apfloat::ieee::Double::from_bits(a as u128);
    let y = rustc_apfloat::ieee::Double::from_bits(b as u128);
    x.c_fmod(y).value.to_bits() as u64
}

/// The bits of the double nearest to the given unsigned integer.
pub uninterp spec fn unsigned_to_double_bits_of(v: u128) -> u64;

/// Relies on `rustc_apfloat::ieee::Double::from_u128`: rounding to the
/// nearest double depends on the value alone.
#[verifier::external_body]
pub fn unsigned_to_double_bits(v: u128) -> (r: u64)
    ensures
        r == unsigned_to_double_bits_of(v),
{
    rustc_apfloat::ieee::Double::from_u128(v).value.to_bits() as u64
}

/// The bits of the double nearest to the given signed integer.
pub uninterp spec fn signed_to_double_bits_of(v: i128) -> u64;

/// Relies on `rustc_apfloat::ieee::Double::from_i128`: rounding to the
/// nearest double depends on the value alone.
#[verifier::external_body]
pub fn signed_to_double_bits(v: i128) -> (r: u64)
    ensures
        r == signed_to_double_bits_of(v),
{
    rustc_apfloat::ieee::Double::from_i128(v).value.to_bits() as u64
}

/// The signed integer the encoded double converts to: truncated toward zero
/// and saturated to the target range; 0 for a NaN.
pub uninterp spec fn double_bits_to_signed_of(b: u64) -> i128;

/// Relies on `rustc_apfloat::ieee::Double::to_i128`: truncation depends on
/// the bits alone.
#[verifier::external_body]
pub fn double_bits_to_signed(b: u64) -> (r: i128)
    ensures
        r == double_bits_to_signed_of(b),
{
    let x = rustc_apfloat::ieee::Double::from_bits(b as u128);
    if x.is_nan() {
        0
    } else {
        x.to_i128(128).value
    }
}

/// The bits of the double that results from rounding the encoded double to
/// single precision and back.
pub uninterp spec fn double_bits_round_single_of(b: u64) -> u64;

/// Relies on `rustc_apfloat::ieee::Double::convert` to `Single` and back:
/// rounding depends on the bits alone.
#[verifier::external_body]
pub fn double_bits_round_single(b: u64) -> (r: u64)
    ensures
        r == double_bits_round_single_of(b),
{
    let x = rustc_apfloat::ieee::Double::from_bits(b as u128);
    let mut loses_info = false;
    let s: rustc_apfloat::ieee::Single = x.convert(&mut loses_info).value;
    let back: rustc_apfloat::ieee::Double = s.convert(&mut loses_info).value;
    back.to_bits() as u64
}

} // verus!
