//! The base field of the curve: integers modulo `2^256 - 189537`.

use vstd::prelude::*;
use vstd::arithmetic::power::*;
use vstd::arithmetic::div_mod::*;
use vstd::std_specs::cmp::PartialEqSpecImpl;
use crate::le::{le_bytes, le_nat, lemma_le_bytes_unique, lemma_le_nat_bound, lemma_le_nat_concat, lemma_le_nat_zeros};
use crate::modular::{
    add_mod, bytes_from_repr, bytes_from_u64, bytes_mul_mod, bytes_pow_mod, bytes_to_repr,
    bytes_zero, mul_mod, neg_mod, pow_mod, sub_mod,
};
use crate::uint::{uint_add_mod, uint_ct_eq, uint_ct_lt, uint_rem_wide, uint_select, uint_sub_mod};

verus! {

/// The modulus, least significant byte first.
pub const MODULUS: [u8; 64] = [
    159, 27, 253, 255, 255, 255, 255, 255, 255, 255, 255, 255, 255, 255, 255, 255,
    255, 255, 255, 255, 255, 255, 255, 255, 255, 255, 255, 255, 255, 255, 255, 255,
    0, 0, 0, 0, 0, 0, 0, 0, 0, 0, 0, 0, 0, 0, 0, 0,
    0, 0, 0, 0, 0, 0, 0, 0, 0, 0, 0, 0, 0, 0, 0, 0,
];

/// The modulus less two: the exponent that inverts.
pub const INVERT_EXPONENT: [u8; 33] = [
    157, 27, 253, 255, 255, 255, 255, 255, 255, 255, 255, 255, 255, 255, 255, 255,
    255, 255, 255, 255, 255, 255, 255, 255, 255, 255, 255, 255, 255, 255, 255, 255,
    0,
];

/// A quarter of the modulus plus one: the exponent that takes square roots.
pub const SQRT_EXPONENT: [u8; 33] = [
    232, 70, 255, 255, 255, 255, 255, 255, 255, 255, 255, 255, 255, 255, 255, 255,
    255, 255, 255, 255, 255, 255, 255, 255, 255, 255, 255, 255, 255, 255, 255, 63,
    0,
];

/// The modulus as a number.
pub open spec fn modulus() -> nat {
    le_nat(MODULUS@)
}

/// The number that [`SQRT_EXPONENT`] encodes.
pub open spec fn sqrt_exponent() -> nat {
    le_nat(SQRT_EXPONENT@)
}

/// What the proofs in this crate use of the modulus: it is odd, leaves
/// three when divided by four, and fits in 32 bytes.
pub proof fn lemma_modulus()
    ensures
        modulus() % 4 == 3,
        159 <= modulus() < pow(256, 32),
        pow(256, 32) < pow(256, 33),
        le_nat(INVERT_EXPONENT@) == modulus() - 2,
{
    let m = MODULUS@;
    let lo = m.take(32);
    let hi = m.skip(32);
    assert(m =~= lo + hi);
    lemma_le_nat_concat(lo, hi);
    lemma_le_nat_zeros(hi);
    lemma_le_nat_bound(lo);
    assert(pow(256, 32) * le_nat(hi) == 0) by (nonlinear_arith)
        requires
            le_nat(hi) == 0,
    ;
    assert(le_nat(m) == m[0] as nat + 256 * le_nat(m.skip(1)));
    lemma_pow_strictly_increases(256, 32, 33);
    let e = INVERT_EXPONENT@;
    let elo = e.take(32);
    let ehi = e.skip(32);
    assert(e =~= elo + ehi);
    lemma_le_nat_concat(elo, ehi);
    lemma_le_nat_zeros(ehi);
    assert(pow(256, 32) * le_nat(ehi) == 0) by (nonlinear_arith)
        requires
            le_nat(ehi) == 0,
    ;
    assert(le_nat(elo) == elo[0] as nat + 256 * le_nat(elo.skip(1)));
    assert(le_nat(lo) == lo[0] as nat + 256 * le_nat(lo.skip(1)));
    assert(elo.skip(1) =~= lo.skip(1));
}

/// An element of the base field, held as its least residue.
#[derive(Clone, Copy, Debug)]
pub struct FieldElement {
    bytes: [u8; 64],
}

impl View for FieldElement {
    type V = nat;

    closed spec fn view(&self) -> nat {
        le_nat(self.bytes@)
    }
}

impl FieldElement {
    #[verifier::type_invariant]
    spec fn reduced(self) -> bool {
        le_nat(self.bytes@) < modulus()
    }

    /// Every element is a residue: its value is below the modulus.
    pub fn value_is_reduced(&self)
        ensures
            self@ < modulus(),
    {
        proof {
            use_type_invariant(self);
        }
    }

    /// The additive identity.
    pub fn zero() -> (r: FieldElement)
        ensures
            r@ == 0,
    {
        proof {
            lemma_modulus();
        }
        FieldElement { bytes: bytes_zero() }
    }

    /// The multiplicative identity.
    pub fn one() -> (r: FieldElement)
        ensures
            r@ == 1,
    {
        proof {
            lemma_modulus();
        }
        FieldElement { bytes: bytes_from_u64(1) }
    }

    /// The element that a machine word stands for.
    pub fn from_u64(x: u64) -> (r: FieldElement)
        ensures
            r@ == x as nat % modulus(),
    {
        proof {
            lemma_modulus();
            lemma_mod_bound(x as int, modulus() as int);
        }
        let lo = bytes_from_u64(x);
        let hi = bytes_zero();
        let bytes = uint_rem_wide(&lo, &hi, &MODULUS);
        proof {
            assert(pow(256, 64) * le_nat(hi@) == 0) by (nonlinear_arith)
                requires
                    le_nat(hi@) == 0,
            ;
        }
        FieldElement { bytes }
    }

    /// The element that 64 little-endian bytes stand for, reduced.
    pub fn reduce(bytes: &[u8; 64]) -> (r: FieldElement)
        ensures
            r@ == le_nat(bytes@) % modulus(),
    {
        proof {
            lemma_modulus();
            lemma_mod_bound(le_nat(bytes@) as int, modulus() as int);
        }
        let hi = bytes_zero();
        proof {
            assert(pow(256, 64) * le_nat(hi@) == 0) by (nonlinear_arith)
                requires
                    le_nat(hi@) == 0,
            ;
        }
        FieldElement { bytes: uint_rem_wide(bytes, &hi, &MODULUS) }
    }

    /// The element that 128 little-endian bytes stand for, reduced. Fed
    /// with uniform bytes, the result is uniform up to a negligible bias.
    pub fn from_wide(bytes: &[u8; 128]) -> (r: FieldElement)
        ensures
            r@ == le_nat(bytes@) % modulus(),
    {
        let mut lo = [0u8; 64];
        let mut hi = [0u8; 64];
        let mut i: usize = 0;
        while i < 64
            invariant
                i <= 64,
                forall|k: int| 0 <= k < i ==> lo@[k] == bytes@[k] && hi@[k] == bytes@[64 + k],
            decreases 64 - i,
        {
            lo[i] = bytes[i];
            hi[i] = bytes[64 + i];
            i += 1;
        }
        proof {
            lemma_modulus();
            assert(bytes@ =~= lo@ + hi@);
            lemma_le_nat_concat(lo@, hi@);
            lemma_mod_bound(le_nat(bytes@) as int, modulus() as int);
        }
        FieldElement { bytes: uint_rem_wide(&lo, &hi, &MODULUS) }
    }

    /// The sum.
    pub fn add(&self, other: &FieldElement) -> (r: FieldElement)
        ensures
            r@ == add_mod(self@, other@, modulus()),
    {
        proof {
            use_type_invariant(self);
            use_type_invariant(other);
            lemma_mod_bound((self@ + other@) as int, modulus() as int);
        }
        FieldElement { bytes: uint_add_mod(&self.bytes, &other.bytes, &MODULUS) }
    }

    /// The difference.
    pub fn sub(&self, other: &FieldElement) -> (r: FieldElement)
        ensures
            r@ == sub_mod(self@, other@, modulus()),
    {
        proof {
            use_type_invariant(self);
            use_type_invariant(other);
            lemma_mod_bound(self@ - other@, modulus() as int);
        }
        FieldElement { bytes: uint_sub_mod(&self.bytes, &other.bytes, &MODULUS) }
    }

    /// The additive inverse.
    pub fn neg(&self) -> (r: FieldElement)
        ensures
            r@ == neg_mod(self@, modulus()),
    {
        FieldElement::zero().sub(self)
    }

    /// The product.
    pub fn mul(&self, other: &FieldElement) -> (r: FieldElement)
        ensures
            r@ == mul_mod(self@, other@, modulus()),
    {
        proof {
            lemma_modulus();
        }
        FieldElement { bytes: bytes_mul_mod(&self.bytes, &other.bytes, &MODULUS) }
    }

    /// The square.
    pub fn square(&self) -> (r: FieldElement)
        ensures
            r@ == mul_mod(self@, self@, modulus()),
    {
        self.mul(self)
    }

    /// Twice the element.
    pub fn double(&self) -> (r: FieldElement)
        ensures
            r@ == add_mod(self@, self@, modulus()),
    {
        self.add(self)
    }

    /// The element raised to the power that `exponent` holds as a number.
    pub fn pow(&self, exponent: &FieldElement) -> (r: FieldElement)
        ensures
            r@ == pow_mod(self@, exponent@, modulus()),
    {
        proof {
            use_type_invariant(self);
            use_type_invariant(exponent);
            lemma_modulus();
        }
        let e = bytes_to_repr(&exponent.bytes);
        FieldElement { bytes: bytes_pow_mod(&self.bytes, &e, &MODULUS) }
    }

    /// The multiplicative inverse, by Fermat's exponent; none for zero.
    pub fn invert(&self) -> (r: Option<FieldElement>)
        ensures
            r is None <==> self@ == 0,
            r is Some ==> r->Some_0@ == pow_mod(self@, (modulus() - 2) as nat, modulus()),
    {
        proof {
            use_type_invariant(self);
            lemma_modulus();
        }
        if self.is_zero() {
            None
        } else {
            Some(FieldElement { bytes: bytes_pow_mod(&self.bytes, &INVERT_EXPONENT, &MODULUS) })
        }
    }

    /// A square root, where the element has one: the candidate
    /// `self^((p + 1) / 4)` if its square is `self`, none otherwise.
    pub fn sqrt(&self) -> (r: Option<FieldElement>)
        ensures
            r is Some <==> is_square_of(self@, sqrt_candidate(self@)),
            r is Some ==> r->Some_0@ == sqrt_candidate(self@),
    {
        proof {
            use_type_invariant(self);
            lemma_modulus();
        }
        let candidate = FieldElement { bytes: bytes_pow_mod(&self.bytes, &SQRT_EXPONENT, &MODULUS) };
        if candidate.square().ct_eq(self) {
            Some(candidate)
        } else {
            None
        }
    }

    /// Whether the element is zero.
    pub fn is_zero(&self) -> (r: bool)
        ensures
            r == (self@ == 0),
    {
        let zero = bytes_zero();
        uint_ct_eq(&self.bytes, &zero)
    }

    /// Whether the least residue is odd.
    pub fn is_odd(&self) -> (r: bool)
        ensures
            r == (self@ % 2 == 1),
    {
        assert(le_nat(self.bytes@) == self.bytes@[0] as nat + 256 * le_nat(self.bytes@.skip(1)));
        self.bytes[0] % 2 == 1
    }

    /// Whether two elements are equal, decided without branching on them.
    pub fn ct_eq(&self, other: &FieldElement) -> (r: bool)
        ensures
            r == (self@ == other@),
    {
        uint_ct_eq(&self.bytes, &other.bytes)
    }

    /// `b` if `choice` is set and `a` otherwise, picked without branching.
    pub fn conditional_select(a: &FieldElement, b: &FieldElement, choice: bool) -> (r: FieldElement)
        ensures
            r == if choice { *b } else { *a },
    {
        proof {
            use_type_invariant(a);
            use_type_invariant(b);
        }
        FieldElement { bytes: uint_select(&a.bytes, &b.bytes, choice) }
    }

    /// The element that 33 little-endian bytes encode, if they encode a
    /// number below the modulus.
    pub fn from_repr(repr: &[u8; 33]) -> (r: Option<FieldElement>)
        ensures
            r is Some <==> le_nat(repr@) < modulus(),
            r is Some ==> r->Some_0@ == le_nat(repr@),
    {
        let bytes = bytes_from_repr(repr);
        if uint_ct_lt(&bytes, &MODULUS) {
            Some(FieldElement { bytes })
        } else {
            None
        }
    }

    /// The 264 bits of the least residue, least significant first.
    pub fn to_le_bits(&self) -> (r: Vec<bool>)
        ensures
            r@.len() == 264,
            forall|i: int|
                0 <= i < 264 ==> #[trigger] r@[i] == ((self@ / vstd::arithmetic::power2::pow2(i as nat)) % 2
                    == 1),
    {
        let repr = self.to_repr();
        let mut bits: Vec<bool> = Vec::new();
        let mut i: usize = 0;
        while i < 264
            invariant
                i <= 264,
                bits.len() == i,
                repr@ == le_bytes(self@, 33),
                forall|k: int|
                    0 <= k < i ==> #[trigger] bits@[k] == ((self@ / vstd::arithmetic::power2::pow2(k as nat))
                        % 2 == 1),
            decreases 264 - i,
        {
            let byte = repr[i / 8];
            let shift = i % 8;
            let divisor: u8 = if shift == 0 {
                1
            } else if shift == 1 {
                2
            } else if shift == 2 {
                4
            } else if shift == 3 {
                8
            } else if shift == 4 {
                16
            } else if shift == 5 {
                32
            } else if shift == 6 {
                64
            } else {
                128
            };
            proof {
                crate::le::lemma_bit_of_bytes(self@, 33, i as nat);
            }
            bits.push((byte / divisor) % 2 == 1);
            i += 1;
        }
        bits
    }

    /// The 33-byte little-endian encoding of the least residue.
    pub fn to_repr(&self) -> (r: [u8; 33])
        ensures
            le_nat(r@) == self@,
            r@ == le_bytes(self@, 33),
    {
        proof {
            use_type_invariant(self);
            lemma_modulus();
        }
        let r = bytes_to_repr(&self.bytes);
        proof {
            lemma_le_bytes_unique(r@);
        }
        r
    }
}

/// The candidate square root of `a`: `a^((p + 1) / 4) mod p`.
pub open spec fn sqrt_candidate(a: nat) -> nat {
    pow_mod(a, sqrt_exponent(), modulus())
}

/// Whether `root * root` is `a` in the field.
pub open spec fn is_square_of(a: nat, root: nat) -> bool {
    mul_mod(root, root, modulus()) == a
}

impl PartialEq for FieldElement {
    fn eq(&self, other: &FieldElement) -> (r: bool) {
        self.ct_eq(other)
    }
}

impl PartialEqSpecImpl for FieldElement {
    open spec fn obeys_eq_spec() -> bool {
        true
    }

    open spec fn eq_spec(&self, other: &FieldElement) -> bool {
        self@ == other@
    }
}


/// Inversion inverts: the modulus being prime, a non-zero element times the
/// power that [`FieldElement::invert`] returns for it is one.
pub proof fn lemma_invert(x: nat)
    requires
        crate::prime::is_prime(modulus()),
        0 < x < modulus(),
    ensures
        mul_mod(x, pow_mod(x, (modulus() - 2) as nat, modulus()), modulus()) == 1,
{
    crate::prime::lemma_fermat_inverse(x, modulus());
}


/// The modulus and the exponent that takes square roots, as numbers:
/// the modulus is `2^256 - 189537`, and four times the exponent is the
/// modulus plus one.
pub proof fn lemma_modulus_value()
    ensures
        modulus() == 0xffffffff_ffffffff_ffffffff_ffffffff_ffffffff_ffffffff_ffffffff_fffd1b9f,
        4 * sqrt_exponent() == modulus() + 1,
{
    let m = MODULUS@;
    let lo = m.take(32);
    let hi = m.skip(32);
    assert(m =~= lo + hi);
    lemma_le_nat_concat(lo, hi);
    lemma_le_nat_zeros(hi);
    assert(pow(256, 32) * le_nat(hi) == 0) by (nonlinear_arith)
        requires
            le_nat(hi) == 0,
    ;
    let w = crate::le::lemma_le_nat32(lo);
    assert(w[0] == 0xfffd1b9f);
    assert(w[1] == 0xffffffff && w[2] == 0xffffffff && w[3] == 0xffffffff);
    assert(w[4] == 0xffffffff && w[5] == 0xffffffff && w[6] == 0xffffffff && w[7] == 0xffffffff);
    let e = SQRT_EXPONENT@;
    let elo = e.take(32);
    let ehi = e.skip(32);
    assert(e =~= elo + ehi);
    lemma_le_nat_concat(elo, ehi);
    lemma_le_nat_zeros(ehi);
    assert(pow(256, 32) * le_nat(ehi) == 0) by (nonlinear_arith)
        requires
            le_nat(ehi) == 0,
    ;
    let v = crate::le::lemma_le_nat32(elo);
    assert(v[0] == 0xffff46e8);
    assert(v[1] == 0xffffffff && v[2] == 0xffffffff && v[3] == 0xffffffff);
    assert(v[4] == 0xffffffff && v[5] == 0xffffffff && v[6] == 0xffffffff && v[7] == 0x3fffffff);
}


/// Square roots are found: the modulus being prime, the candidate root
/// of a square is a root of it. So [`FieldElement::sqrt`] returns a root
/// exactly for the squares of the field.
pub proof fn lemma_sqrt_of_square(r: nat)
    requires
        crate::prime::is_prime(modulus()),
        r < modulus(),
    ensures
        is_square_of(mul_mod(r, r, modulus()), sqrt_candidate(mul_mod(r, r, modulus()))),
{
    let p = modulus();
    let e = sqrt_exponent();
    let a = mul_mod(r, r, p);
    let c = sqrt_candidate(a);
    lemma_modulus_value();
    lemma_mod_bound((r * r) as int, p as int);
    // c c = a^(2 e), modulo p.
    crate::modular::lemma_pow_mod_mul(a, e, e, p);
    assert(mul_mod(c, c, p) == pow_mod(a, 2 * e, p));
    if r == 0 {
        assert(r * r == 0);
        lemma_small_mod(0, p);
        vstd::arithmetic::power::lemma0_pow(2 * e);
    } else {
        // a^(2 e) = (r^2)^(2 e) = r^(4 e) = r^(p - 1) r^2 = r^2 = a, modulo p.
        vstd::arithmetic::power::lemma_pow_mod_noop((r * r) as int, 2 * e, p as int);
        assert(pow((r * r) as int, 2 * e) == pow(r as int, 4 * e)) by {
            vstd::arithmetic::power::lemma_pow_multiplies(r as int, 2, 2 * e);
            vstd::arithmetic::power::lemma_square_is_pow2(r as int);
            assert(2 * (2 * e) == 4 * e);
        }
        vstd::arithmetic::power::lemma_pow_adds(r as int, (p - 1) as nat, 2);
        vstd::arithmetic::power::lemma_square_is_pow2(r as int);
        crate::prime::lemma_fermat(r, p);
        crate::modular::lemma_pow_positive_or_zero(r as int, (p - 1) as nat);
        vstd::arithmetic::div_mod::lemma_mul_mod_noop_general(pow(r as int, (p - 1) as nat), (r * r) as int, p as int);
        lemma_small_mod(a, p);
        assert(1 * a == a);
        assert(pow(r as int, 4 * e) == pow(r as int, (p - 1) as nat) * (r * r)) by {
            assert(4 * e == (p - 1) + 2);
        }
    }
}

} // verus!
