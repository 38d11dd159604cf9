//! Arithmetic modulo an odd number, on 64-byte little-endian residues.
//!
//! The functions here are shared by the base field and the scalar field.
//! Their contracts are stated over natural numbers: [`le_nat`] of each
//! operand, and the usual meaning of `+`, `*`, `%` and powers.

use vstd::prelude::*;
use vstd::arithmetic::power::*;
use vstd::arithmetic::div_mod::*;
use vstd::arithmetic::mul::*;
use crate::le::{le_nat, lemma_le_nat_concat, lemma_le_nat_high_zero, lemma_le_nat_single, lemma_le_nat_zeros};
use crate::uint::{uint_mul_wide, uint_rem_wide};

verus! {

/// `(a + b) mod m`.
pub open spec fn add_mod(a: nat, b: nat, m: nat) -> nat {
    (a + b) % m
}

/// `(a - b) mod m`, the representative in `0 .. m`.
pub open spec fn sub_mod(a: nat, b: nat, m: nat) -> nat {
    ((a - b) % (m as int)) as nat
}

/// `(a * b) mod m`.
pub open spec fn mul_mod(a: nat, b: nat, m: nat) -> nat {
    (a * b) % m
}

/// `-a mod m`.
pub open spec fn neg_mod(a: nat, m: nat) -> nat {
    sub_mod(0, a, m)
}

/// `a^e mod m`.
pub open spec fn pow_mod(a: nat, e: nat, m: nat) -> nat {
    (pow(a as int, e) % (m as int)) as nat
}

/// The 64-byte encoding of zero.
pub fn bytes_zero() -> (r: [u8; 64])
    ensures
        le_nat(r@) == 0,
{
    let r = [0u8; 64];
    proof {
        lemma_le_nat_zeros(r@);
    }
    r
}

/// The 64-byte encoding of a machine word.
pub fn bytes_from_u64(x: u64) -> (r: [u8; 64])
    ensures
        le_nat(r@) == x,
{
    let mut r = [0u8; 64];
    let mut rest = x;
    let mut i: usize = 0;
    proof {
        reveal(pow);
        assert(r@.take(0) =~= Seq::<u8>::empty());
        assert(pow(256, 0) * rest == x);
    }
    while i < 8
        invariant
            i <= 8,
            forall|j: int| i <= j < 64 ==> r@[j] == 0,
            le_nat(r@.take(i as int)) + pow(256, i as nat) * rest == x,
            pow(256, i as nat) * rest <= x,
        decreases 8 - i,
    {
        let ghost before = r@;
        proof {
            reveal(pow);
            lemma_pow_positive(256, i as nat);
        }
        r[i] = (rest % 256) as u8;
        proof {
            let lo = before.take(i as int);
            assert(r@.take(i as int + 1) =~= lo + seq![(rest % 256) as u8]);
            lemma_le_nat_concat(lo, seq![(rest % 256) as u8]);
            lemma_le_nat_single((rest % 256) as u8);
            assert(pow(256, (i + 1) as nat) == 256 * pow(256, i as nat));
            assert(pow(256, i as nat) * (rest % 256) + pow(256, (i + 1) as nat) * (rest / 256)
                == pow(256, i as nat) * rest) by (nonlinear_arith)
                requires
                    pow(256, (i + 1) as nat) == 256 * pow(256, i as nat),
                    rest == 256 * (rest / 256) + rest % 256,
            ;
            assert(pow(256, (i + 1) as nat) * (rest / 256) >= 0) by (nonlinear_arith)
                requires
                    pow(256, (i + 1) as nat) > 0,
                    rest / 256 >= 0,
            ;
        }
        rest = rest / 256;
        i += 1;
    }
    proof {
        reveal(pow);
        assert(pow(256, 8) == 0x1_0000_0000_0000_0000) by {
            reveal_with_fuel(pow, 9);
        }
        assert(rest == 0) by (nonlinear_arith)
            requires
                pow(256, 8) * rest <= x,
                pow(256, 8) == 0x1_0000_0000_0000_0000,
                x < 0x1_0000_0000_0000_0000,
                rest >= 0,
        ;
        let lo = r@.take(8);
        let hi = r@.skip(8);
        assert(r@ =~= lo + hi);
        lemma_le_nat_concat(lo, hi);
        lemma_le_nat_zeros(hi);
    }
    r
}

/// The product of two residues, reduced.
pub fn bytes_mul_mod(a: &[u8; 64], b: &[u8; 64], m: &[u8; 64]) -> (r: [u8; 64])
    requires
        le_nat(m@) > 0,
    ensures
        le_nat(r@) == mul_mod(le_nat(a@), le_nat(b@), le_nat(m@)),
        le_nat(r@) < le_nat(m@),
{
    let (lo, hi) = uint_mul_wide(a, b);
    let r = uint_rem_wide(&lo, &hi, m);
    proof {
        lemma_mod_bound((le_nat(a@) * le_nat(b@)) as int, le_nat(m@) as int);
    }
    r
}


/// Multiplying two reduced powers of one base adds the exponents.
pub proof fn lemma_pow_mod_mul(b: nat, e1: nat, e2: nat, m: nat)
    requires
        m > 0,
    ensures
        mul_mod(pow_mod(b, e1, m), pow_mod(b, e2, m), m) == pow_mod(b, e1 + e2, m),
{
    let x = pow(b as int, e1);
    let y = pow(b as int, e2);
    lemma_pow_positive_or_zero(b as int, e1);
    lemma_pow_positive_or_zero(b as int, e2);
    lemma_mod_bound(x, m as int);
    lemma_mod_bound(y, m as int);
    lemma_mul_mod_noop_general(x, y, m as int);
    lemma_pow_adds(b as int, e1, e2);
}

/// A power of a natural number is not negative.
pub proof fn lemma_pow_positive_or_zero(b: int, e: nat)
    requires
        b >= 0,
    ensures
        pow(b, e) >= 0,
    decreases e,
{
    reveal(pow);
    if e > 0 {
        lemma_pow_positive_or_zero(b, (e - 1) as nat);
        assert(b * pow(b, (e - 1) as nat) >= 0) by (nonlinear_arith)
            requires
                b >= 0,
                pow(b, (e - 1) as nat) >= 0,
        ;
    }
}

/// One step of fixed-window exponentiation: sixteenth power, then one
/// table entry.
fn window_step(
    acc: &[u8; 64],
    table: &Vec<[u8; 64]>,
    nibble: u8,
    m: &[u8; 64],
    Ghost(b): Ghost<nat>,
    Ghost(e): Ghost<nat>,
) -> (r: [u8; 64])
    requires
        le_nat(m@) > 1,
        nibble < 16,
        table.len() == 16,
        forall|k: int| 0 <= k < 16 ==> le_nat(#[trigger] table[k]@) == pow_mod(b, k as nat, le_nat(m@)),
        le_nat(acc@) == pow_mod(b, e, le_nat(m@)),
    ensures
        le_nat(r@) == pow_mod(b, (16 * e + nibble) as nat, le_nat(m@)),
{
    let ghost n = le_nat(m@);
    let r2 = bytes_mul_mod(acc, acc, m);
    let r4 = bytes_mul_mod(&r2, &r2, m);
    let r8 = bytes_mul_mod(&r4, &r4, m);
    let r16 = bytes_mul_mod(&r8, &r8, m);
    let r = bytes_mul_mod(&r16, &table[nibble as usize], m);
    proof {
        lemma_pow_mod_mul(b, e, e, n);
        lemma_pow_mod_mul(b, 2 * e, 2 * e, n);
        lemma_pow_mod_mul(b, 4 * e, 4 * e, n);
        lemma_pow_mod_mul(b, 8 * e, 8 * e, n);
        lemma_pow_mod_mul(b, 16 * e, nibble as nat, n);
        assert(le_nat(table[nibble as int]@) == pow_mod(b, nibble as nat, n));
    }
    r
}

/// The sixteen powers `b^0 .. b^15` of a residue.
fn power_table(base: &[u8; 64], m: &[u8; 64]) -> (table: Vec<[u8; 64]>)
    requires
        le_nat(m@) > 1,
        le_nat(base@) < le_nat(m@),
    ensures
        table.len() == 16,
        forall|k: int| 0 <= k < 16 ==> le_nat(#[trigger] table[k]@) == pow_mod(le_nat(base@), k as nat, le_nat(m@)),
{
    let ghost b = le_nat(base@);
    let ghost n = le_nat(m@);
    let mut table: Vec<[u8; 64]> = Vec::new();
    table.push(bytes_from_u64(1));
    proof {
        reveal(pow);
        lemma_small_mod(1, n);
        lemma_pow1(b as int);
        lemma_small_mod(b, n);
    }
    table.push(*base);
    let mut i: usize = 2;
    while i < 16
        invariant
            2 <= i <= 16,
            n == le_nat(m@),
            b == le_nat(base@),
            n > 1,
            b < n,
            table.len() == i,
            forall|k: int| 0 <= k < i ==> le_nat(#[trigger] table[k]@) == pow_mod(b, k as nat, n),
        decreases 16 - i,
    {
        let next = bytes_mul_mod(&table[i - 1], base, m);
        proof {
            assert(le_nat(table[i - 1]@) == pow_mod(b, (i - 1) as nat, n));
            lemma_pow1(b as int);
            lemma_small_mod(b, n);
            lemma_pow_mod_mul(b, (i - 1) as nat, 1, n);
        }
        table.push(next);
        i += 1;
    }
    table
}

/// `base^exp mod m` by a four-bit fixed window: a table of sixteen powers,
/// and per nibble of the exponent, from the top, four squarings and one
/// multiplication.
pub fn bytes_pow_mod(base: &[u8; 64], exp: &[u8; 33], m: &[u8; 64]) -> (r: [u8; 64])
    requires
        le_nat(m@) > 1,
        le_nat(base@) < le_nat(m@),
    ensures
        le_nat(r@) == pow_mod(le_nat(base@), le_nat(exp@), le_nat(m@)),
        le_nat(r@) < le_nat(m@),
{
    let ghost b = le_nat(base@);
    let ghost n = le_nat(m@);
    let table = power_table(base, m);
    let mut acc = bytes_from_u64(1);
    let mut j: usize = 33;
    proof {
        reveal(pow);
        lemma_small_mod(1, n);
        assert(exp@.skip(33) =~= Seq::<u8>::empty());
    }
    while j > 0
        invariant
            j <= 33,
            n == le_nat(m@),
            b == le_nat(base@),
            n > 1,
            table.len() == 16,
            forall|k: int| 0 <= k < 16 ==> le_nat(#[trigger] table[k]@) == pow_mod(b, k as nat, n),
            le_nat(acc@) == pow_mod(b, le_nat(exp@.skip(j as int)), n),
        decreases j,
    {
        j -= 1;
        let byte = exp[j];
        let ghost e = le_nat(exp@.skip(j as int + 1));
        let high = window_step(&acc, &table, byte / 16, m, Ghost(b), Ghost(e));
        acc = window_step(&high, &table, byte % 16, m, Ghost(b), Ghost((16 * e + byte / 16) as nat));
        proof {
            assert(exp@.skip(j as int).skip(1) =~= exp@.skip(j as int + 1));
            assert(le_nat(exp@.skip(j as int)) == byte as nat + 256 * e);
        }
    }
    proof {
        assert(exp@.skip(0) =~= exp@);
        lemma_mod_bound(pow(b as int, le_nat(exp@)), n as int);
    }
    acc
}

/// The low 33 bytes of a residue below `256^33`.
pub fn bytes_to_repr(a: &[u8; 64]) -> (r: [u8; 33])
    requires
        le_nat(a@) < pow(256, 33),
    ensures
        le_nat(r@) == le_nat(a@),
        r@ == a@.take(33),
{
    let mut r = [0u8; 33];
    let mut i: usize = 0;
    while i < 33
        invariant
            i <= 33,
            forall|k: int| 0 <= k < i ==> r@[k] == a@[k],
        decreases 33 - i,
    {
        r[i] = a[i];
        i += 1;
    }
    proof {
        assert(r@ =~= a@.take(33));
        lemma_le_nat_high_zero(a@, 33);
    }
    r
}

/// A 33-byte encoding widened to 64 bytes.
pub fn bytes_from_repr(r: &[u8; 33]) -> (a: [u8; 64])
    ensures
        le_nat(a@) == le_nat(r@),
        a@.take(33) == r@,
{
    let mut a = [0u8; 64];
    let mut i: usize = 0;
    while i < 33
        invariant
            i <= 33,
            forall|k: int| 0 <= k < i ==> a@[k] == r@[k],
            forall|k: int| i <= k < 64 ==> a@[k] == 0,
        decreases 33 - i,
    {
        a[i] = r[i];
        i += 1;
    }
    proof {
        let hi = a@.skip(33);
        assert(a@.take(33) =~= r@);
        assert(a@ =~= r@ + hi);
        lemma_le_nat_concat(r@, hi);
        lemma_le_nat_zeros(hi);
        assert(pow(256, 33) * le_nat(hi) == 0) by (nonlinear_arith)
            requires
                le_nat(hi) == 0,
        ;
    }
    a
}

} // verus!
