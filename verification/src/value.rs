//! The numeric third field of a record.  A value is carried as the 64 bits
//! of an IEEE binary64 number; parsing a field, adding two values and
//! rendering a value back to bytes are done by the `rustc_apfloat`
//! soft-float library, whose results depend on the arguments alone.  The
//! three operations are named, and everything around them is proved against
//! those names.

use vstd::prelude::*;
use rustc_apfloat::Float;

verus! {

/// The bits that parsing a field as a binary64 number yields, or `None`
/// where the field is not a numeric literal.
pub uninterp spec fn parsed_value(field: Seq<u8>) -> Option<u64>;

/// The bits of the binary64 sum of two values given by their bits.
pub uninterp spec fn sum_bits(a: u64, b: u64) -> u64;

/// The decimal rendering of the value with the given bits.
pub uninterp spec fn rendered(bits: u64) -> Seq<u8>;

/// Relies on `rustc_apfloat::ieee::Double`'s `FromStr` (with `to_bits`,
/// after `core::str::from_utf8`): whether a field parses, and to which
/// bits, depends on its bytes alone; a field that is not valid text yields
/// none.
#[verifier::external_body]
pub fn parse_value(field: &Vec<u8>) -> (r: Option<u64>)
    ensures
        r == parsed_value(field@),
{
    match core::str::from_utf8(field.as_slice()) {
        Ok(s) => match s.parse::<rustc_apfloat::ieee::Double>() {
            Ok(d) => Some(d.to_bits() as u64),
            Err(_) => None,
        },
        Err(_) => None,
    }
}

/// Relies on `rustc_apfloat::ieee::Double`'s `Add` (round to nearest, ties
/// to even): the sum's bits depend on the two arguments' bits alone.
#[verifier::external_body]
pub fn add_values(a: u64, b: u64) -> (r: u64)
    ensures
        r == sum_bits(a, b),
{
    let x = rustc_apfloat::ieee::Double::from_bits(a as u128);
    let y = rustc_apfloat::ieee::Double::from_bits(b as u128);
    (x + y).value.to_bits() as u64
}

/// Relies on `rustc_apfloat::ieee::Double`'s `Display`: the shortest
/// round-tripping decimal rendering depends on the bits alone.
#[verifier::external_body]
pub fn render_value(bits: u64) -> (r: Vec<u8>)
    ensures
        r@ == rendered(bits),
{
    format!("{}", rustc_apfloat::ieee::Double::from_bits(bits as u128)).into_bytes()
}

} // verus!
