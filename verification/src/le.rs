//! Little-endian byte strings as natural numbers.

use vstd::prelude::*;
use vstd::arithmetic::power::*;
use vstd::arithmetic::power2::{lemma_pow2_adds, lemma_pow2_pos, pow2};
use vstd::arithmetic::div_mod::{lemma_div_denominator, lemma_fundamental_div_mod};

verus! {

/// The natural number that a byte string encodes, least significant byte first.
pub open spec fn le_nat(s: Seq<u8>) -> nat
    decreases s.len(),
{
    if s.len() == 0 {
        0
    } else {
        s[0] as nat + 256 * le_nat(s.skip(1))
    }
}

/// A single byte encodes itself.
pub proof fn lemma_le_nat_single(b: u8)
    ensures
        le_nat(seq![b]) == b,
{
    assert(seq![b].skip(1) =~= Seq::<u8>::empty());
    assert(le_nat(seq![b]) == b as nat + 256 * le_nat(seq![b].skip(1)));
    assert(le_nat(Seq::<u8>::empty()) == 0);
}

/// A byte string of length `n` encodes a number below `256^n`.
pub proof fn lemma_le_nat_bound(s: Seq<u8>)
    ensures
        le_nat(s) < pow(256, s.len()),
    decreases s.len(),
{
    reveal(pow);
    if s.len() > 0 {
        lemma_le_nat_bound(s.skip(1));
        assert(pow(256, s.len()) == 256 * pow(256, (s.len() - 1) as nat));
    }
}

/// Bytes that are all zero encode zero.
pub proof fn lemma_le_nat_zeros(s: Seq<u8>)
    requires
        forall|i: int| 0 <= i < s.len() ==> s[i] == 0,
    ensures
        le_nat(s) == 0,
    decreases s.len(),
{
    if s.len() > 0 {
        lemma_le_nat_zeros(s.skip(1));
    }
}

/// The value of a concatenation: the low part plus the high part shifted.
pub proof fn lemma_le_nat_concat(a: Seq<u8>, b: Seq<u8>)
    ensures
        le_nat(a + b) == le_nat(a) + pow(256, a.len()) * le_nat(b),
    decreases a.len(),
{
    reveal(pow);
    if a.len() == 0 {
        assert(a + b =~= b);
    } else {
        lemma_le_nat_concat(a.skip(1), b);
        assert((a + b).skip(1) =~= a.skip(1) + b);
        assert(pow(256, a.len()) == 256 * pow(256, (a.len() - 1) as nat));
        assert(256 * (pow(256, (a.len() - 1) as nat) * le_nat(b)) == pow(256, a.len())
            * le_nat(b)) by (nonlinear_arith)
            requires
                pow(256, a.len()) == 256 * pow(256, (a.len() - 1) as nat),
        ;
    }
}

/// Two byte strings of one length that encode the same number are equal.
pub proof fn lemma_le_nat_injective(a: Seq<u8>, b: Seq<u8>)
    requires
        a.len() == b.len(),
        le_nat(a) == le_nat(b),
    ensures
        a == b,
    decreases a.len(),
{
    if a.len() == 0 {
        assert(a =~= b);
    } else {
        let ra = le_nat(a.skip(1));
        let rb = le_nat(b.skip(1));
        assert(a[0] as nat + 256 * ra == b[0] as nat + 256 * rb);
        assert(a[0] == b[0] && ra == rb);
        lemma_le_nat_injective(a.skip(1), b.skip(1));
        assert(a =~= seq![a[0]] + a.skip(1));
        assert(b =~= seq![b[0]] + b.skip(1));
    }
}

/// A number below `256^k` has only zero bytes from position `k` on.
pub proof fn lemma_le_nat_high_zero(s: Seq<u8>, k: nat)
    requires
        k <= s.len(),
        le_nat(s) < pow(256, k),
    ensures
        forall|i: int| k <= i < s.len() ==> s[i] == 0,
        le_nat(s.take(k as int)) == le_nat(s),
{
    let lo = s.take(k as int);
    let hi = s.skip(k as int);
    assert(s =~= lo + hi);
    lemma_le_nat_concat(lo, hi);
    lemma_le_nat_bound(lo);
    lemma_pow_positive(256, k);
    assert(le_nat(hi) == 0) by (nonlinear_arith)
        requires
            le_nat(lo) + pow(256, k) * le_nat(hi) < pow(256, k),
            pow(256, k) > 0,
    ;
    lemma_le_nat_all_zero(hi);
    assert forall|i: int| k <= i < s.len() implies s[i] == 0 by {
        assert(s[i] == hi[i - k]);
    }
}

/// A byte string that encodes zero holds only zero bytes.
pub proof fn lemma_le_nat_all_zero(s: Seq<u8>)
    requires
        le_nat(s) == 0,
    ensures
        forall|i: int| 0 <= i < s.len() ==> s[i] == 0,
    decreases s.len(),
{
    if s.len() > 0 {
        lemma_le_nat_all_zero(s.skip(1));
        assert forall|i: int| 0 <= i < s.len() implies s[i] == 0 by {
            if i > 0 {
                assert(s[i] == s.skip(1)[i - 1]);
            }
        }
    }
}


/// The `len` bytes that encode a number, least significant byte first.
pub open spec fn le_bytes(n: nat, len: nat) -> Seq<u8>
    decreases len,
{
    if len == 0 {
        Seq::empty()
    } else {
        seq![(n % 256) as u8] + le_bytes(n / 256, (len - 1) as nat)
    }
}

/// The bytes of a number are as many as asked for, and encode the number
/// if it is below `256^len`.
pub proof fn lemma_le_bytes(n: nat, len: nat)
    ensures
        le_bytes(n, len).len() == len,
        n < pow(256, len) ==> le_nat(le_bytes(n, len)) == n,
    decreases len,
{
    reveal(pow);
    if len > 0 {
        lemma_le_bytes(n / 256, (len - 1) as nat);
        let rest = le_bytes(n / 256, (len - 1) as nat);
        assert(le_bytes(n, len).skip(1) =~= rest);
        if n < pow(256, len) {
            assert(pow(256, len) == 256 * pow(256, (len - 1) as nat));
            assert(n / 256 < pow(256, (len - 1) as nat));
        }
    }
}

/// A byte string that encodes a number is the bytes of that number.
pub proof fn lemma_le_bytes_unique(s: Seq<u8>)
    ensures
        s == le_bytes(le_nat(s), s.len()),
{
    lemma_le_nat_bound(s);
    lemma_le_bytes(le_nat(s), s.len());
    lemma_le_nat_injective(s, le_bytes(le_nat(s), s.len()));
}


/// Byte `k` of the bytes of a number is the number shifted down by `k`
/// bytes, reduced to a byte.
pub proof fn lemma_le_bytes_index(n: nat, len: nat, k: nat)
    requires
        k < len,
    ensures
        le_bytes(n, len).len() == len,
        le_bytes(n, len)[k as int] as int == (n as int / pow(256, k)) % 256,
    decreases k,
{
    reveal(pow);
    lemma_le_bytes(n, len);
    lemma_le_bytes(n / 256, (len - 1) as nat);
    let head = seq![(n % 256) as u8];
    let tail = le_bytes(n / 256, (len - 1) as nat);
    assert(le_bytes(n, len) == head + tail);
    if k > 0 {
        lemma_le_bytes_index(n / 256, (len - 1) as nat, (k - 1) as nat);
        let c = pow(256, (k - 1) as nat);
        lemma_pow_positive(256, (k - 1) as nat);
        lemma_div_denominator(n as int, 256, c);
        assert(pow(256, k) == 256 * c);
        assert((head + tail)[k as int] == tail[k - 1]);
        assert((n as int / 256) / c == n as int / (256 * c));
    } else {
        assert(pow(256, 0) == 1);
        assert((head + tail)[0] == head[0]);
    }
}

/// One of the eight powers of two below 256.
pub open spec fn small_pow2(j: nat) -> nat {
    if j == 0 {
        1
    } else if j == 1 {
        2
    } else if j == 2 {
        4
    } else if j == 3 {
        8
    } else if j == 4 {
        16
    } else if j == 5 {
        32
    } else if j == 6 {
        64
    } else {
        128
    }
}

/// `256^k` is `2^(8 k)`.
pub proof fn lemma_pow256(k: nat)
    ensures
        pow(256, k) == pow2(8 * k),
    decreases k,
{
    reveal(pow);
    vstd::arithmetic::power2::lemma2_to64();
    if k > 0 {
        lemma_pow256((k - 1) as nat);
        lemma_pow2_adds(8, (8 * (k - 1)) as nat);
    }
}

/// The powers of two below 256, by their exponents.
pub proof fn lemma_small_pow2(j: nat)
    requires
        j < 8,
    ensures
        pow2(j) == small_pow2(j),
{
    vstd::arithmetic::power2::lemma2_to64();
}

/// Dividing by a divisor `c` of 256 with an even quotient `256 / c`: the
/// parity of the result depends on the lowest byte only.
pub proof fn lemma_low_byte_parity(a: nat, c: nat, m: nat)
    requires
        c * m == 256,
        c > 0,
        m % 2 == 0,
    ensures
        (a / c) % 2 == ((a % 256) / c) % 2,
{
    let q = a / 256;
    let b = a % 256;
    let bq = b / c;
    let br = b % c;
    lemma_fundamental_div_mod(a as int, 256);
    lemma_fundamental_div_mod(b as int, c as int);
    vstd::arithmetic::div_mod::lemma_mod_bound(b as int, c as int);
    assert(a == c * (m * q + bq) + br) by (nonlinear_arith)
        requires
            a == 256 * q + b,
            b == c * bq + br,
            c * m == 256,
    ;
    vstd::arithmetic::div_mod::lemma_fundamental_div_mod_converse(
        a as int,
        c as int,
        (m * q + bq) as int,
        br as int,
    );
    let half = m / 2;
    assert(m * q + bq == (half * q) * 2 + bq) by (nonlinear_arith)
        requires
            m == 2 * half,
    ;
    vstd::arithmetic::div_mod::lemma_mod_multiples_vanish((half * q) as int, bq as int, 2);
}

/// Bit `j` of a number, for `j` below eight, is bit `j` of its lowest
/// byte.
pub proof fn lemma_bit_of_low_byte(a: nat, j: nat)
    requires
        j < 8,
    ensures
        (a / small_pow2(j)) % 2 == ((a % 256) / small_pow2(j)) % 2,
{
    if j == 0 {
        lemma_low_byte_parity(a, 1, 256);
    } else if j == 1 {
        lemma_low_byte_parity(a, 2, 128);
    } else if j == 2 {
        lemma_low_byte_parity(a, 4, 64);
    } else if j == 3 {
        lemma_low_byte_parity(a, 8, 32);
    } else if j == 4 {
        lemma_low_byte_parity(a, 16, 16);
    } else if j == 5 {
        lemma_low_byte_parity(a, 32, 8);
    } else if j == 6 {
        lemma_low_byte_parity(a, 64, 4);
    } else {
        lemma_low_byte_parity(a, 128, 2);
    }
}

/// Bit `i` of a number is bit `i % 8` of byte `i / 8` of its bytes.
pub proof fn lemma_bit_of_bytes(n: nat, len: nat, i: nat)
    requires
        i < 8 * len,
    ensures
        le_bytes(n, len).len() == len,
        (n / pow2(i)) % 2 == (le_bytes(n, len)[(i / 8) as int] as nat / small_pow2(i % 8)) % 2,
{
    let k = i / 8;
    let j = i % 8;
    lemma_le_bytes_index(n, len, k);
    lemma_pow256(k);
    lemma_pow2_pos(8 * k);
    lemma_pow2_adds(8 * k, j);
    lemma_small_pow2(j);
    let c = pow2(8 * k);
    let d = small_pow2(j);
    let a = n / c;
    lemma_div_denominator(n as int, c as int, d as int);
    assert(pow2(i) == c * d);
    assert(n / pow2(i) == a / d);
    assert(le_bytes(n, len)[k as int] as nat == a % 256);
    lemma_bit_of_low_byte(a, j);
}


/// The value of four bytes.
pub proof fn lemma_le_nat4(s: Seq<u8>)
    requires
        s.len() == 4,
    ensures
        le_nat(s) == s[0] as nat + 0x100 * (s[1] as nat) + 0x10000 * (s[2] as nat) + 0x1000000 * (s[3] as nat),
{
    reveal_with_fuel(le_nat, 5);
    assert(s.skip(1).skip(1).skip(1).skip(1).len() == 0);
}

/// The value of 32 bytes, by its eight groups of four.
pub proof fn lemma_le_nat32(s: Seq<u8>) -> (words: Seq<nat>)
    requires
        s.len() == 32,
    ensures
        words.len() == 8,
        forall|k: int|
            0 <= k < 8 ==> #[trigger] words[k] == s[4 * k] as nat + 0x100 * (s[4 * k + 1] as nat) + 0x10000 * (s[4
                * k + 2] as nat) + 0x1000000 * (s[4 * k + 3] as nat),
        le_nat(s) == words[0] + 0x1_0000_0000 * (words[1] + 0x1_0000_0000 * (words[2] + 0x1_0000_0000 * (words[3]
            + 0x1_0000_0000 * (words[4] + 0x1_0000_0000 * (words[5] + 0x1_0000_0000 * (words[6] + 0x1_0000_0000
            * words[7])))))),
{
    let words = Seq::new(8, |k: int| le_nat(s.subrange(4 * k, 4 * k + 4)));
    assert(pow(256, 4) == 0x1_0000_0000) by {
        reveal_with_fuel(pow, 5);
    }
    assert forall|k: int| 0 <= k < 8 implies #[trigger] words[k] == s[4 * k] as nat + 0x100 * (s[4 * k + 1] as nat)
        + 0x10000 * (s[4 * k + 2] as nat) + 0x1000000 * (s[4 * k + 3] as nat) by {
        lemma_le_nat4(s.subrange(4 * k, 4 * k + 4));
    }
    // Peel four bytes at a time.
    let s1 = s.skip(4);
    let s2 = s.skip(8);
    let s3 = s.skip(12);
    let s4 = s.skip(16);
    let s5 = s.skip(20);
    let s6 = s.skip(24);
    let s7 = s.skip(28);
    assert(s =~= s.subrange(0, 4) + s1);
    assert(s1 =~= s.subrange(4, 8) + s2);
    assert(s2 =~= s.subrange(8, 12) + s3);
    assert(s3 =~= s.subrange(12, 16) + s4);
    assert(s4 =~= s.subrange(16, 20) + s5);
    assert(s5 =~= s.subrange(20, 24) + s6);
    assert(s6 =~= s.subrange(24, 28) + s7);
    assert(s7 =~= s.subrange(28, 32));
    lemma_le_nat_concat(s.subrange(0, 4), s1);
    lemma_le_nat_concat(s.subrange(4, 8), s2);
    lemma_le_nat_concat(s.subrange(8, 12), s3);
    lemma_le_nat_concat(s.subrange(12, 16), s4);
    lemma_le_nat_concat(s.subrange(16, 20), s5);
    lemma_le_nat_concat(s.subrange(20, 24), s6);
    lemma_le_nat_concat(s.subrange(24, 28), s7);
    words
}

} // verus!
