//! Fixed-width big-integer primitives, taken from `crypto_bigint` and `subtle`.
//!
//! A 512-bit integer crosses this boundary as 64 little-endian bytes. Nothing
//! in this file is proved: each contract restates what the called function
//! documents, over [`le_nat`].

use vstd::prelude::*;
use vstd::arithmetic::power::*;
use crypto_bigint::{Encoding, U512};
use subtle::{Choice, ConditionallySelectable, ConstantTimeEq, ConstantTimeLess};
use crate::le::le_nat;

verus! {

/// `crypto_bigint::Uint::add_mod`: the sum of two residues, reduced.
/// The callee assumes `a + b < 2p`, which two residues satisfy.
#[verifier::external_body]
pub(crate) fn uint_add_mod(a: &[u8; 64], b: &[u8; 64], p: &[u8; 64]) -> (r: [u8; 64])
    requires
        le_nat(a@) < le_nat(p@),
        le_nat(b@) < le_nat(p@),
    ensures
        le_nat(r@) == (le_nat(a@) + le_nat(b@)) % le_nat(p@),
{
    U512::from_le_bytes(*a).add_mod(&U512::from_le_bytes(*b), &U512::from_le_bytes(*p)).to_le_bytes()
}

/// `crypto_bigint::Uint::sub_mod`: the difference of two residues, reduced.
/// The callee assumes `-p <= a - b < p`, which two residues satisfy.
#[verifier::external_body]
pub(crate) fn uint_sub_mod(a: &[u8; 64], b: &[u8; 64], p: &[u8; 64]) -> (r: [u8; 64])
    requires
        le_nat(a@) < le_nat(p@),
        le_nat(b@) < le_nat(p@),
    ensures
        le_nat(r@) as int == (le_nat(a@) - le_nat(b@)) % (le_nat(p@) as int),
{
    U512::from_le_bytes(*a).sub_mod(&U512::from_le_bytes(*b), &U512::from_le_bytes(*p)).to_le_bytes()
}

/// `crypto_bigint::Uint::mul_wide`: the full 1024-bit product, as its low
/// and high halves.
#[verifier::external_body]
pub(crate) fn uint_mul_wide(a: &[u8; 64], b: &[u8; 64]) -> (r: ([u8; 64], [u8; 64]))
    ensures
        le_nat(r.0@) + pow(256, 64) * le_nat(r.1@) == le_nat(a@) * le_nat(b@),
{
    let (lo, hi) = U512::from_le_bytes(*a).mul_wide(&U512::from_le_bytes(*b));
    (lo.to_le_bytes(), hi.to_le_bytes())
}

/// `crypto_bigint::Uint::const_rem_wide`: the remainder of a 1024-bit value,
/// given as low and high halves, by a non-zero 512-bit modulus.
#[verifier::external_body]
pub(crate) fn uint_rem_wide(lo: &[u8; 64], hi: &[u8; 64], p: &[u8; 64]) -> (r: [u8; 64])
    requires
        le_nat(p@) > 0,
    ensures
        le_nat(r@) as int == (le_nat(lo@) + pow(256, 64) * le_nat(hi@)) % (le_nat(p@) as int),
{
    U512::const_rem_wide((U512::from_le_bytes(*lo), U512::from_le_bytes(*hi)), &U512::from_le_bytes(*p)).0.to_le_bytes()
}

/// `subtle::ConstantTimeEq::ct_eq` on `crypto_bigint::Uint`: whether two
/// integers are equal, decided without branching on them.
#[verifier::external_body]
pub(crate) fn uint_ct_eq(a: &[u8; 64], b: &[u8; 64]) -> (r: bool)
    ensures
        r == (le_nat(a@) == le_nat(b@)),
{
    U512::from_le_bytes(*a).ct_eq(&U512::from_le_bytes(*b)).into()
}

/// `subtle::ConstantTimeLess::ct_lt` on `crypto_bigint::Uint`: whether the
/// first integer is below the second, decided without branching on them.
#[verifier::external_body]
pub(crate) fn uint_ct_lt(a: &[u8; 64], b: &[u8; 64]) -> (r: bool)
    ensures
        r == (le_nat(a@) < le_nat(b@)),
{
    U512::from_le_bytes(*a).ct_lt(&U512::from_le_bytes(*b)).into()
}

/// `subtle::ConditionallySelectable::conditional_select` on
/// `crypto_bigint::Uint`: the second integer if the choice is set, the first
/// otherwise, picked without branching.
#[verifier::external_body]
pub(crate) fn uint_select(a: &[u8; 64], b: &[u8; 64], choice: bool) -> (r: [u8; 64])
    ensures
        r == if choice { *b } else { *a },
{
    U512::conditional_select(&U512::from_le_bytes(*a), &U512::from_le_bytes(*b), Choice::from(choice as u8)).to_le_bytes()
}

} // verus!
