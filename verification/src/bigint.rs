//! Trusted boundary around the `ibig` arbitrary-precision integers and the
//! process random source.  Every item here is believed, not proved: each
//! wrapper's contract states what the named outside function is documented to
//! do, over the value abstractions `ubig_value` and `ibig_value`.

use vstd::prelude::*;
use crate::codec::{le_nat, le_min};

verus! {

#[verifier::external_type_specification]
#[verifier::external_body]
pub struct ExUBig(ibig::UBig);

#[verifier::external_type_specification]
#[verifier::external_body]
pub struct ExIBig(ibig::IBig);

/// The natural number an unsigned big integer stands for.
pub uninterp spec fn ubig_value(x: ibig::UBig) -> nat;

/// The integer a signed big integer stands for.
pub uninterp spec fn ibig_value(x: ibig::IBig) -> int;

/// Relies on `<UBig as From<u64>>::from`: builds the big integer with that value.
#[verifier::external_body]
pub fn big_from_u64(x: u64) -> (r: ibig::UBig)
    ensures
        ubig_value(r) == x as nat,
{
    ibig::UBig::from(x)
}

/// Relies on `UBig::from_le_bytes`: reads a little-endian byte string.
#[verifier::external_body]
pub fn big_from_le(bytes: &[u8]) -> (r: ibig::UBig)
    ensures
        ubig_value(r) == le_nat(bytes@),
{
    ibig::UBig::from_le_bytes(bytes)
}

/// Relies on `UBig::to_le_bytes`: writes the value in little-endian bytes
/// with no trailing zero byte, and writes zero as the empty string; that is
/// exactly the canonical encoding `le_min`.
#[verifier::external_body]
pub fn big_to_le(a: &ibig::UBig) -> (r: Vec<u8>)
    ensures
        r@ == le_min(ubig_value(*a)),
{
    a.to_le_bytes()
}

/// Relies on `<UBig as Clone>::clone`: the copy has the same value.
#[verifier::external_body]
pub fn big_clone(a: &ibig::UBig) -> (r: ibig::UBig)
    ensures
        ubig_value(r) == ubig_value(*a),
{
    a.clone()
}

/// Relies on `<&UBig as Add>::add`: exact unbounded addition.
#[verifier::external_body]
pub fn big_add(a: &ibig::UBig, b: &ibig::UBig) -> (r: ibig::UBig)
    ensures
        ubig_value(r) == ubig_value(*a) + ubig_value(*b),
{
    a + b
}

/// Relies on `<&UBig as Sub>::sub`: exact subtraction; the subtrahend must
/// not exceed the minuend, for the operator panics on a negative result.
#[verifier::external_body]
pub fn big_sub(a: &ibig::UBig, b: &ibig::UBig) -> (r: ibig::UBig)
    requires
        ubig_value(*b) <= ubig_value(*a),
    ensures
        ubig_value(r) == ubig_value(*a) - ubig_value(*b),
{
    a - b
}

/// Relies on `<&UBig as Mul>::mul`: exact unbounded multiplication.
#[verifier::external_body]
pub fn big_mul(a: &ibig::UBig, b: &ibig::UBig) -> (r: ibig::UBig)
    ensures
        ubig_value(r) == ubig_value(*a) * ubig_value(*b),
{
    a * b
}

/// Relies on `<&UBig as DivRem>::div_rem`: Euclidean quotient and remainder;
/// the divisor must not be zero, for the operator panics on it.
#[verifier::external_body]
pub fn big_div_rem(a: &ibig::UBig, m: &ibig::UBig) -> (r: (ibig::UBig, ibig::UBig))
    requires
        ubig_value(*m) > 0,
    ensures
        ubig_value(r.0) == ubig_value(*a) / ubig_value(*m),
        ubig_value(r.1) == ubig_value(*a) % ubig_value(*m),
{
    ibig::ops::DivRem::div_rem(a, m)
}

/// Relies on `<UBig as PartialOrd>::lt`: the order of the values.
#[verifier::external_body]
pub fn big_lt(a: &ibig::UBig, b: &ibig::UBig) -> (r: bool)
    ensures
        r == (ubig_value(*a) < ubig_value(*b)),
{
    a < b
}

/// Relies on `<UBig as PartialEq>::eq`: equality of the values.
#[verifier::external_body]
pub fn big_eq(a: &ibig::UBig, b: &ibig::UBig) -> (r: bool)
    ensures
        r == (ubig_value(*a) == ubig_value(*b)),
{
    a == b
}

/// Relies on `UBig::extended_gcd`: returns `(g, u, v)` with the Bezout
/// identity `u*a + v*b == g`, where `g` is a common divisor of `a` and `b`
/// and is at least one.  The arguments must not both be zero, for the
/// function panics on that pair.
#[verifier::external_body]
pub fn big_extended_gcd(a: &ibig::UBig, b: &ibig::UBig) -> (r: (ibig::UBig, ibig::IBig, ibig::IBig))
    requires
        ubig_value(*a) > 0 || ubig_value(*b) > 0,
    ensures
        1 <= ubig_value(r.0),
        ubig_value(r.0) <= ubig_value(*a) || ubig_value(*a) == 0,
        ubig_value(r.0) <= ubig_value(*b) || ubig_value(*b) == 0,
        ubig_value(*a) as int % ubig_value(r.0) as int == 0,
        ubig_value(*b) as int % ubig_value(r.0) as int == 0,
        ibig_value(r.1) * ubig_value(*a) + ibig_value(r.2) * ubig_value(*b) == ubig_value(r.0),
{
    a.extended_gcd(b)
}

/// Relies on `<&IBig as RemEuclid>::rem_euclid` (and the `IBig`/`UBig`
/// conversions around it): the least non-negative residue of `x` modulo `m`.
#[verifier::external_body]
pub fn ibig_mod_ubig(x: &ibig::IBig, m: &ibig::UBig) -> (r: ibig::UBig)
    requires
        ubig_value(*m) > 0,
    ensures
        ubig_value(r) as int == ibig_value(*x) % (ubig_value(*m) as int),
{
    let mi = ibig::IBig::from(m.clone());
    let red = ibig::ops::RemEuclid::rem_euclid(x, &mi);
    ibig::UBig::try_from(red).expect("euclidean remainder is non-negative")
}

/// Relies on `rand::RngCore::fill_bytes` on `rand::thread_rng`: fills the
/// buffer; nothing is assumed of the bytes beyond their count.
#[verifier::external_body]
pub fn random_bytes(n: usize) -> (r: Vec<u8>)
    ensures
        r@.len() == n,
{
    let mut buf = vec![0u8; n];
    rand::RngCore::fill_bytes(&mut rand::thread_rng(), &mut buf);
    buf
}

} // verus!
