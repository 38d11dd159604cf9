//! The common parts of the range proof: generators derived by hashing,
//! the decomposition of amounts into bits, and the products of challenges.

use vstd::prelude::*;
use vstd::arithmetic::power2::{lemma_pow2_unfold, pow2};
use vstd::arithmetic::div_mod::lemma_div_denominator;
use crate::digest::{blake2b512, blake2b512_digest};
use crate::le::{le_bytes, le_nat};
use crate::point::{
    add_model, cofactor_model, decode_model, mul_model, Jacobian, Point,
};
use crate::scalar::{modulus, Scalar};
use crate::vector::{coordinates, multiexp_model, smul, ssub, values, PointVector, ScalarVector};

verus! {

/// The greatest number of amounts in one proof.
pub const MAX_M: usize = 16;

/// The logarithm of the number of bits of an amount.
pub const LOG_N: usize = 6;

/// The number of bits of an amount.
pub const N: usize = 64;

/// An amount under a mask.
#[derive(Clone, Copy, Debug)]
pub struct Commitment {
    pub mask: Scalar,
    pub value: u64,
}

impl Commitment {
    /// The commitment to zero under a zero mask.
    pub fn zero() -> (r: Commitment)
        ensures
            r.mask@ == 0,
            r.value == 0,
    {
        Commitment { mask: Scalar::zero(), value: 0 }
    }

    /// The commitment to an amount under a mask.
    pub fn new(mask: Scalar, value: u64) -> (r: Commitment)
        ensures
            r.mask == mask,
            r.value == value,
    {
        Commitment { mask, value }
    }

    /// The commitment as a point: `mask g + value h`.
    pub fn calculate(&self, g: &Point, h: &Point) -> (r: Point)
        ensures
            r@ == add_model(mul_model(g@, self.mask@), mul_model(h@, self.value as nat % modulus())),
    {
        g.mul(&self.mask).add(&h.mul(&Scalar::from_u64(self.value)))
    }
}

/// The scalar that a byte string hashes to: its 64-byte hash, reduced.
pub open spec fn hash_to_scalar_model(buf: Seq<u8>) -> nat {
    le_nat(blake2b512(buf)) % modulus()
}

/// Hashes a byte string to a scalar. All 64 bytes of the hash are
/// reduced, which leaves a bias too small to matter.
pub fn hash_to_scalar(buf: &Vec<u8>) -> (r: Scalar)
    ensures
        r@ == hash_to_scalar_model(buf@),
{
    let digest = blake2b512_digest(buf);
    Scalar::reduce(&digest)
}

/// The eight bytes of a 64-bit number, least significant first.
pub open spec fn le64(x: u64) -> Seq<u8> {
    le_bytes(x as nat, 8)
}

fn push_u64(out: &mut Vec<u8>, x: u64)
    ensures
        final(out)@ == old(out)@ + le64(x),
{
    let ghost before = out@;
    let mut rest = x;
    let mut i: usize = 0;
    proof {
        assert(before + le_bytes(x as nat, 8) =~= before + Seq::<u8>::empty() + le_bytes(x as nat, 8));
    }
    let ghost mut done = Seq::<u8>::empty();
    while i < 8
        invariant
            i <= 8,
            out@ == before + done,
            done + le_bytes(rest as nat, (8 - i) as nat) == le_bytes(x as nat, 8),
        decreases 8 - i,
    {
        out.push((rest % 256) as u8);
        proof {
            let byte = (rest % 256) as u8;
            assert(le_bytes(rest as nat, (8 - i) as nat) == seq![byte] + le_bytes(
                rest as nat / 256,
                (8 - i - 1) as nat,
            ));
            assert(done.push(byte) + le_bytes(rest as nat / 256, (8 - i - 1) as nat) =~= done + (seq![byte]
                + le_bytes(rest as nat / 256, (8 - i - 1) as nat)));
            assert(before + done.push(byte) =~= (before + done).push(byte));
            done = done.push(byte);
        }
        rest = rest / 256;
        i += 1;
    }
    proof {
        assert(done + Seq::<u8>::empty() =~= done);
    }
}

/// The 33 bytes that a generator is searched from: the first 32 bytes of
/// the hash of the prefix and the index, and a zero byte.
pub open spec fn seed_model(prefix: Seq<u8>, u: u64) -> Seq<u8> {
    blake2b512(prefix + le64(u)).take(32).push(0u8)
}

/// The point found from a seed at or after a number of tries: six times
/// the first candidate that decodes, where the candidate of try `k` is the
/// seed with `k` added to its first byte, wrapping; none once 256
/// candidates have failed.
pub open spec fn search_model(seed: Seq<u8>, tries: nat) -> Option<Jacobian>
    decreases 256 - tries,
{
    if tries >= 256 {
        None
    } else {
        match decode_model(le_nat(seed.update(0, ((seed[0] + tries) % 256) as u8))) {
            Ok(p) => Some(cofactor_model(p)),
            Err(_) => search_model(seed, tries + 1),
        }
    }
}

/// An optional point as a value of contracts.
pub open spec fn found_model(p: Option<Point>) -> Option<Jacobian> {
    match p {
        Some(p) => Some(p@),
        None => None,
    }
}

/// Derives a generator from a prefix and an index by hashing to the curve:
/// hash, try to decode, step the first byte until a candidate decodes, and
/// clear the cofactor.
pub fn generator(prefix: &Vec<u8>, u: u64) -> (r: Option<Point>)
    ensures
        found_model(r) == search_model(seed_model(prefix@, u), 0),
{
    let mut input: Vec<u8> = Vec::new();
    let mut i: usize = 0;
    while i < prefix.len()
        invariant
            i <= prefix.len(),
            input@ == prefix@.take(i as int),
        decreases prefix.len() - i,
    {
        input.push(prefix[i]);
        assert(prefix@.take(i as int + 1) =~= prefix@.take(i as int).push(prefix@[i as int]));
        i += 1;
    }
    assert(prefix@.take(prefix.len() as int) =~= prefix@);
    push_u64(&mut input, u);
    let raw = blake2b512_digest(&input);
    let mut bytes = [0u8; 33];
    let mut k: usize = 0;
    while k < 32
        invariant
            k <= 32,
            bytes@[32] == 0,
            forall|j: int| 0 <= j < k ==> bytes@[j] == raw@[j],
        decreases 32 - k,
    {
        bytes[k] = raw[k];
        k += 1;
    }
    let ghost seed = bytes@;
    assert(seed =~= seed_model(prefix@, u));
    let first = bytes[0];
    let mut tries: usize = 0;
    assert(bytes@ =~= seed.update(0, ((seed[0] + 0) % 256) as u8));
    while tries < 256
        invariant
            tries <= 256,
            seed.len() == 33,
            seed == seed_model(prefix@, u),
            first == seed[0],
            bytes@ == seed.update(0, ((seed[0] + tries) % 256) as u8) || tries == 256,
            search_model(seed, 0) == search_model(seed, tries as nat),
        decreases 256 - tries,
    {
        let ghost candidate = decode_model(le_nat(seed.update(0, ((seed[0] + tries) % 256) as u8)));
        match Point::from_bytes(&bytes) {
            Ok(p) => {
                assert(candidate == Ok::<Jacobian, crate::point::DecodeError>(p@));
                assert(search_model(seed, tries as nat) == Some(cofactor_model(p@)));
                return Some(p.mul_by_cofactor());
            },
            Err(e) => {
                assert(candidate == Err::<Jacobian, crate::point::DecodeError>(e));
                assert(search_model(seed, tries as nat) == search_model(seed, tries as nat + 1));
            },
        }
        tries += 1;
        if tries < 256 {
            bytes[0] = ((first as usize + tries) % 256) as u8;
            assert(bytes@ =~= seed.update(0, ((seed[0] + tries) % 256) as u8));
        }
    }
    None
}

/// The generator derived from a prefix at index `i`, if the search from
/// its seed finds one.
pub open spec fn derived_model(prefix: Seq<u8>, i: int) -> Option<Jacobian> {
    search_model(seed_model(prefix, i as u64), 0)
}

/// Whether the search finds both the `G` and the `H` generator at every
/// index below `len`.
pub open spec fn all_derived(len: int) -> bool {
    forall|i: int|
        0 <= i < len ==> (#[trigger] derived_model(g_prefix(), i)) is Some && derived_model(h_prefix(), i) is Some
}

/// `G` and `H` generators for vectors of a given length: at each index
/// the generator derived from the prefix of its kind. There are none if
/// the search fails at some index for either kind.
pub fn generators(len: usize) -> (r: Option<(PointVector, PointVector)>)
    ensures
        r is Some <==> all_derived(len as int),
        r is Some ==> {
            &&& r->Some_0.0@.len() == len
            &&& r->Some_0.1@.len() == len
            &&& forall|i: int| 0 <= i < len ==> Some(#[trigger] r->Some_0.0@[i]) == derived_model(g_prefix(), i)
            &&& forall|i: int| 0 <= i < len ==> Some(#[trigger] r->Some_0.1@[i]) == derived_model(h_prefix(), i)
        },
{
    let g_label = g_prefix_bytes();
    let h_label = h_prefix_bytes();
    let mut g: Vec<Point> = Vec::new();
    let mut h: Vec<Point> = Vec::new();
    let mut i: usize = 0;
    while i < len
        invariant
            i <= len,
            g.len() == i,
            h.len() == i,
            g_label@ == g_prefix(),
            h_label@ == h_prefix(),
            all_derived(i as int),
            forall|k: int| 0 <= k < i ==> Some((#[trigger] g@[k])@) == derived_model(g_prefix(), k),
            forall|k: int| 0 <= k < i ==> Some((#[trigger] h@[k])@) == derived_model(h_prefix(), k),
        decreases len - i,
    {
        let first = generator(&g_label, i as u64);
        let second = generator(&h_label, i as u64);
        proof {
            assert(found_model(first) == derived_model(g_prefix(), i as int));
            assert(found_model(second) == derived_model(h_prefix(), i as int));
        }
        match (first, second) {
            (Some(a), Some(b)) => {
                g.push(a);
                h.push(b);
            },
            _ => {
                proof {
                    assert(!(derived_model(g_prefix(), i as int) is Some && derived_model(h_prefix(), i as int) is Some));
                    assert(!all_derived(len as int));
                }
                return None;
            },
        }
        i += 1;
    }
    let r = (PointVector(g), PointVector(h));
    proof {
        assert forall|k: int| 0 <= k < len implies Some(#[trigger] r.0@[k]) == derived_model(g_prefix(), k) by {
            assert(r.0@[k] == g@[k]@);
        }
        assert forall|k: int| 0 <= k < len implies Some(#[trigger] r.1@[k]) == derived_model(h_prefix(), k) by {
            assert(r.1@[k] == h@[k]@);
        }
    }
    Some(r)
}

/// The prefix under which the `G` generators are derived: the ASCII text
/// `Bulletproofs G`.
pub open spec fn g_prefix() -> Seq<u8> {
    seq![66u8, 117, 108, 108, 101, 116, 112, 114, 111, 111, 102, 115, 32, 71]
}

/// The prefix under which the `H` generators are derived: the ASCII text
/// `Bulletproofs H`.
pub open spec fn h_prefix() -> Seq<u8> {
    seq![66u8, 117, 108, 108, 101, 116, 112, 114, 111, 111, 102, 115, 32, 72]
}

fn g_prefix_bytes() -> (r: Vec<u8>)
    ensures
        r@ == g_prefix(),
{
    let r = vec![66u8, 117, 108, 108, 101, 116, 112, 114, 111, 111, 102, 115, 32, 71];
    assert(r@ =~= g_prefix());
    r
}

fn h_prefix_bytes() -> (r: Vec<u8>)
    ensures
        r@ == h_prefix(),
{
    let r = vec![66u8, 117, 108, 108, 101, 116, 112, 114, 111, 111, 102, 115, 32, 72];
    assert(r@ =~= h_prefix());
    r
}

/// A curve with the second generators that the range proof needs. Each
/// is searched for, and there is none where the search fails.
///
/// The contracts that speak of these generators are stated over the
/// `spec` functions of this trait. They hold of an implementation whose
/// executable functions compute them, which is for the implementer to
/// see to.
pub trait BulletproofsCurve {
    spec fn alt_generator_model() -> Option<Jacobian>;

    spec fn alt_generators_model() -> Option<Seq<Jacobian>>;

    /// The generator that amounts are committed under.
    fn alt_generator() -> (r: Option<Point>)
        ensures
            found_model(r) == Self::alt_generator_model(),
    ;

    /// The generators that vectors are committed under.
    fn alt_generators() -> (r: Option<Vec<Point>>)
        ensures
            match r {
                Some(v) => Self::alt_generators_model() == Some(coordinates(v@)),
                None => Self::alt_generators_model() is None,
            },
    ;
}

/// The curve of this crate.
pub struct Bulletproof25519;

/// The prefix under which the second generator is derived: the ASCII text
/// `H`.
pub open spec fn alt_prefix() -> Seq<u8> {
    seq![72u8]
}

/// Whether the search finds the generator of a prefix at every index
/// below `len`.
pub open spec fn every_derived(prefix: Seq<u8>, len: int) -> bool {
    forall|i: int| 0 <= i < len ==> (#[trigger] derived_model(prefix, i)) is Some
}

impl BulletproofsCurve for Bulletproof25519 {
    open spec fn alt_generator_model() -> Option<Jacobian> {
        derived_model(alt_prefix(), 0)
    }

    open spec fn alt_generators_model() -> Option<Seq<Jacobian>> {
        if every_derived(h_prefix(), (MAX_M * N) as int) {
            Some(Seq::new((MAX_M * N) as nat, |i: int| derived_model(h_prefix(), i)->Some_0))
        } else {
            None
        }
    }

    fn alt_generator() -> (r: Option<Point>) {
        let prefix = vec![72u8];
        assert(prefix@ =~= alt_prefix());
        generator(&prefix, 0)
    }

    fn alt_generators() -> (r: Option<Vec<Point>>) {
        let prefix = h_prefix_bytes();
        let mut out: Vec<Point> = Vec::new();
        let mut i: usize = 0;
        while i < MAX_M * N
            invariant
                i <= MAX_M * N,
                prefix@ == h_prefix(),
                out.len() == i,
                every_derived(h_prefix(), i as int),
                forall|k: int| 0 <= k < i ==> Some((#[trigger] out@[k])@) == derived_model(h_prefix(), k),
            decreases MAX_M * N - i,
        {
            let found = generator(&prefix, i as u64);
            proof {
                assert(found_model(found) == derived_model(h_prefix(), i as int));
            }
            match found {
                Some(p) => {
                    out.push(p);
                },
                None => {
                    proof {
                        assert(!(derived_model(h_prefix(), i as int) is Some));
                        assert(!every_derived(h_prefix(), (MAX_M * N) as int));
                    }
                    return None;
                },
            }
            i += 1;
        }
        proof {
            assert(coordinates(out@) =~= Seq::new(
                (MAX_M * N) as nat,
                |i: int| derived_model(h_prefix(), i)->Some_0,
            ));
        }
        Some(out)
    }
}

impl Commitment {
    /// The commitment as a point under the generators of a curve:
    /// `mask G + value H`, with `H` the curve's second generator. There is
    /// none where the curve has no second generator.
    pub fn calculate_on<C: BulletproofsCurve>(&self) -> (r: Option<Point>)
        ensures
            found_model(r) == match C::alt_generator_model() {
                Some(h) => Some(
                    add_model(
                        mul_model(crate::point::generator_model(), self.mask@),
                        mul_model(h, self.value as nat % modulus()),
                    ),
                ),
                None => None,
            },
    {
        match C::alt_generator() {
            Some(h) => Some(self.calculate(&Point::generator(), &h)),
            None => None,
        }
    }
}

/// The commitment to two vectors under the first generators of each kind:
/// `sum a_i G_i + sum b_i H_i`.
pub fn vector_exponent(a: &ScalarVector, b: &ScalarVector, g: &PointVector, h: &PointVector) -> (r: Point)
    requires
        a@.len() == b@.len(),
        a@.len() <= g@.len(),
        b@.len() <= h@.len(),
    ensures
        r@ == add_model(
            multiexp_model(a@, g@.take(a@.len() as int), a@.len()),
            multiexp_model(b@, h@.take(b@.len() as int), b@.len()),
        ),
{
    let left = take_points(g, a.len()).multiexp(a);
    let right = take_points(h, b.len()).multiexp(b);
    left.add(&right)
}

fn take_points(points: &PointVector, n: usize) -> (r: PointVector)
    requires
        n <= points@.len(),
    ensures
        r@ == points@.take(n as int),
{
    let mut out: Vec<Point> = Vec::new();
    let mut i: usize = 0;
    while i < n
        invariant
            i <= n <= points.0.len(),
            out.len() == i,
            forall|k: int| 0 <= k < i ==> out@[k] == points.0@[k],
        decreases n - i,
    {
        out.push(points.0[i]);
        i += 1;
    }
    let r = PointVector(out);
    assert(r@ =~= points@.take(n as int));
    r
}

/// The number of amounts padded to a power of two: the least power of
/// two that is at least the number of amounts, and 32 for any number above
/// [`MAX_M`].
pub open spec fn padded(outputs: nat) -> nat {
    if outputs <= 1 {
        1
    } else if outputs <= 2 {
        2
    } else if outputs <= 4 {
        4
    } else if outputs <= 8 {
        8
    } else if outputs <= 16 {
        16
    } else {
        32
    }
}

/// The shape of a proof for a number of amounts: the logarithm of the
/// vector length, the number of amounts padded to a power of two, and the
/// vector length, 64 bits for each amount.
#[allow(non_snake_case)]
pub fn MN(outputs: usize) -> (r: (usize, usize, usize))
    ensures
        r.1 == padded(outputs as nat),
        r.1 == pow2((r.0 - 6) as nat),
        r.0 >= 6,
        r.2 == 64 * r.1,
{
    let mut log_m: usize = 0;
    let mut m: usize = 1;
    proof {
        vstd::arithmetic::power2::lemma2_to64();
    }
    while m <= MAX_M && m < outputs
        invariant
            log_m <= 5,
            m == pow2(log_m as nat),
            1 <= m <= 32,
            m == 1 || (m / 2 < outputs && m / 2 <= 16),
            m == 1 || m == 2 || m == 4 || m == 8 || m == 16 || m == 32,
        decreases 64 - m,
    {
        proof {
            vstd::arithmetic::power2::lemma2_to64();
        }
        log_m += 1;
        m = m * 2;
    }
    (log_m + LOG_N, m, m * N)
}

/// Bit `i` of an amount.
pub open spec fn bit_model(amount: u64, i: nat) -> nat {
    (amount as nat / pow2(i)) % 2
}

/// The bits of a list of amounts, 64 for each, least significant first,
/// padded with zeros to `m` amounts.
pub open spec fn bits_model(amounts: Seq<u64>, m: nat) -> Seq<nat> {
    Seq::new(
        64 * m,
        |k: int|
            if k / 64 < amounts.len() {
                bit_model(amounts[k / 64], (k % 64) as nat)
            } else {
                0
            },
    )
}

/// Decomposes amounts into bits: the vector of the bits, and the vector of
/// each bit less one.
pub fn bit_decompose(commitments: &Vec<Commitment>) -> (r: (ScalarVector, ScalarVector))
    ensures
        r.0@ == bits_model(
            Seq::new(commitments@.len(), |i: int| commitments@[i].value),
            padded(commitments@.len()),
        ),
        r.1@ == Seq::new(r.0@.len(), |k: int| ssub(r.0@[k], 1)),
{
    let (_, m, _) = MN(commitments.len());
    let ghost amounts = Seq::new(commitments@.len(), |i: int| commitments@[i].value);
    let mut al: Vec<Scalar> = Vec::new();
    let mut ar: Vec<Scalar> = Vec::new();
    let mut j: usize = 0;
    while j < m
        invariant
            j <= m <= 32,
            al.len() == 64 * j,
            ar.len() == 64 * j,
            amounts == Seq::new(commitments@.len(), |i: int| commitments@[i].value),
            forall|k: int| 0 <= k < 64 * j ==> (#[trigger] al@[k])@ == bits_model(amounts, m as nat)[k],
            forall|k: int| 0 <= k < 64 * j ==> (#[trigger] ar@[k])@ == ssub(al@[k]@, 1),
        decreases m - j,
    {
        let mut rest: u64 = if j < commitments.len() {
            commitments[j].value
        } else {
            0
        };
        let ghost amount = rest;
        let mut i: usize = 0;
        proof {
            assert(pow2(0) == 1) by {
                vstd::arithmetic::power2::lemma2_to64();
            }
        }
        while i < 64
            invariant
                i <= 64,
                j < m <= 32,
                al.len() == 64 * j + i,
                ar.len() == 64 * j + i,
                rest == amount as nat / pow2(i as nat),
                amount == if j < commitments@.len() {
                    commitments@[j as int].value
                } else {
                    0
                },
                amounts == Seq::new(commitments@.len(), |i: int| commitments@[i].value),
                forall|k: int| 0 <= k < 64 * j + i ==> (#[trigger] al@[k])@ == bits_model(amounts, m as nat)[k],
                forall|k: int| 0 <= k < 64 * j + i ==> (#[trigger] ar@[k])@ == ssub(al@[k]@, 1),
            decreases 64 - i,
        {
            let bit = if rest % 2 == 1 {
                Scalar::one()
            } else {
                Scalar::zero()
            };
            proof {
                let k = 64 * j + i;
                assert(k / 64 == j && k % 64 == i);
                vstd::arithmetic::power2::lemma_pow2_pos(i as nat);
                lemma_pow2_unfold((i + 1) as nat);
                lemma_div_denominator(amount as int, pow2(i as nat) as int, 2);
                if j >= commitments@.len() {
                    assert(rest == 0);
                }
            }
            al.push(bit);
            ar.push(bit.sub(&Scalar::one()));
            rest = rest / 2;
            i += 1;
        }
        j += 1;
    }
    let r = (ScalarVector(al), ScalarVector(ar));
    proof {
        assert(r.0@ =~= bits_model(amounts, m as nat));
        assert(r.1@ =~= Seq::new(r.0@.len(), |k: int| ssub(r.0@[k], 1)));
    }
    r
}

/// The product of challenges for one position: for each round `j` up to
/// `round`, the challenge if the bit of the position for that round is
/// set, and its inverse otherwise. The last round reads the lowest bit.
pub open spec fn challenge_product_model(w: Seq<nat>, winv: Seq<nat>, round: nat, position: nat) -> nat
    decreases round,
{
    let factor = if position % 2 == 1 {
        w[round as int]
    } else {
        winv[round as int]
    };
    if round == 0 {
        factor
    } else {
        smul(challenge_product_model(w, winv, (round - 1) as nat, position / 2), factor)
    }
}

/// The products of challenges for every position of a folded vector.
pub fn challenge_products(w: &Vec<Scalar>, winv: &Vec<Scalar>) -> (r: Vec<Scalar>)
    requires
        1 <= w@.len() == winv@.len() <= 32,
    ensures
        r@.len() == pow2(w@.len()),
        forall|s: int|
            0 <= s < r@.len() ==> (#[trigger] r@[s])@ == challenge_product_model(
                values(w@),
                values(winv@),
                (w@.len() - 1) as nat,
                s as nat,
            ),
{
    let mut products: Vec<Scalar> = Vec::new();
    products.push(winv[0]);
    products.push(w[0]);
    proof {
        assert(pow2(1) == 2) by {
            vstd::arithmetic::power2::lemma2_to64();
        }
    }
    let mut j: usize = 1;
    while j < w.len()
        invariant
            1 <= j <= w.len(),
            w@.len() == winv@.len() <= 32,
            products@.len() == pow2(j as nat),
            forall|s: int|
                0 <= s < products@.len() ==> (#[trigger] products@[s])@ == challenge_product_model(
                    values(w@),
                    values(winv@),
                    (j - 1) as nat,
                    s as nat,
                ),
        decreases w.len() - j,
    {
        let mut next: Vec<Scalar> = Vec::new();
        let mut s: usize = 0;
        proof {
            lemma_pow2_unfold((j + 1) as nat);
            vstd::arithmetic::power2::lemma_pow2_strictly_increases(j as nat, 32);
            vstd::arithmetic::power2::lemma2_to64();
        }
        while s < products.len()
            invariant
                s <= products.len(),
                1 <= j < w.len(),
                w@.len() == winv@.len(),
                products@.len() == pow2(j as nat),
                products@.len() < 0x100000000,
                next@.len() == 2 * s,
                forall|t: int|
                    0 <= t < products@.len() ==> (#[trigger] products@[t])@ == challenge_product_model(
                        values(w@),
                        values(winv@),
                        (j - 1) as nat,
                        t as nat,
                    ),
                forall|t: int|
                    0 <= t < next@.len() ==> (#[trigger] next@[t])@ == challenge_product_model(
                        values(w@),
                        values(winv@),
                        j as nat,
                        t as nat,
                    ),
            decreases products.len() - s,
        {
            assert((2 * s) / 2 == s && (2 * s + 1) / 2 == s);
            next.push(products[s].mul(&winv[j]));
            next.push(products[s].mul(&w[j]));
            s += 1;
        }
        products = next;
        j += 1;
    }
    products
}

/// The pairs of scalar and point that a round of the inner-product
/// argument multiplies out: `a` over `g`, then `b` over `h`, then the
/// cross-term.
pub fn lr_statements(a: &ScalarVector, g: &Vec<Point>, b: &ScalarVector, h: &Vec<Point>, c_l: Scalar, u: Point) -> (r: Vec<(Scalar, Point)>)
    requires
        a@.len() == g@.len(),
        b@.len() == h@.len(),
    ensures
        r@.len() == a@.len() + b@.len() + 1,
        forall|i: int| 0 <= i < a@.len() ==> (#[trigger] r@[i]) == (a.0@[i], g@[i]),
        forall|i: int| 0 <= i < b@.len() ==> (#[trigger] r@[a@.len() + i]) == (b.0@[i], h@[i]),
        r@[(a@.len() + b@.len()) as int] == (c_l, u),
{
    let mut res: Vec<(Scalar, Point)> = Vec::new();
    let mut i: usize = 0;
    while i < a.0.len()
        invariant
            i <= a.0.len(),
            a.0.len() == g.len(),
            res.len() == i,
            forall|k: int| 0 <= k < i ==> (#[trigger] res@[k]) == (a.0@[k], g@[k]),
        decreases a.0.len() - i,
    {
        res.push((a.0[i], g[i]));
        i += 1;
    }
    let mut k: usize = 0;
    while k < b.0.len()
        invariant
            k <= b.0.len(),
            b.0.len() == h.len(),
            res.len() == a.0.len() + k,
            forall|t: int| 0 <= t < a.0.len() ==> (#[trigger] res@[t]) == (a.0@[t], g@[t]),
            forall|t: int| 0 <= t < k ==> (#[trigger] res@[a.0.len() + t]) == (b.0@[t], h@[t]),
        decreases b.0.len() - k,
    {
        res.push((b.0[k], h[k]));
        k += 1;
    }
    res.push((c_l, u));
    res
}


/// The concatenation of a list of 33-byte strings.
pub open spec fn flatten_model(list: Seq<[u8; 33]>) -> Seq<u8>
    decreases list.len(),
{
    if list.len() == 0 {
        Seq::empty()
    } else {
        flatten_model(list.drop_last()) + list.last()@
    }
}

/// The concatenation of the encodings of a list of points.
pub open spec fn encodings_model(points: Seq<Point>) -> Seq<u8>
    decreases points.len(),
{
    if points.len() == 0 {
        Seq::empty()
    } else {
        encodings_model(points.drop_last()) + le_bytes(crate::point::encode_model(points.last()@), 33)
    }
}

fn push_repr(out: &mut Vec<u8>, a: &[u8; 33])
    ensures
        final(out)@ == old(out)@ + a@,
{
    let ghost before = out@;
    let mut i: usize = 0;
    while i < 33
        invariant
            i <= 33,
            out@ == before + a@.take(i as int),
        decreases 33 - i,
    {
        out.push(a[i]);
        assert(before + a@.take(i as int + 1) =~= (before + a@.take(i as int)).push(a@[i as int]));
        i += 1;
    }
    assert(a@.take(33) =~= a@);
}

/// Chains a hash: the cache becomes the hash of its encoding followed by
/// the given strings, and is returned.
pub fn hash_cache(cache: &mut Scalar, mash: &Vec<[u8; 33]>) -> (r: Scalar)
    ensures
        final(cache)@ == hash_to_scalar_model(le_bytes(old(cache)@, 33) + flatten_model(mash@)),
        r == *final(cache),
{
    let mut input: Vec<u8> = Vec::new();
    push_repr(&mut input, &cache.to_repr());
    let ghost head = input@;
    let mut i: usize = 0;
    proof {
        assert(Seq::<u8>::empty() + le_bytes(cache@, 33) =~= le_bytes(cache@, 33));
        assert(head + flatten_model(mash@.take(0)) =~= head);
    }
    while i < mash.len()
        invariant
            i <= mash.len(),
            input@ == head + flatten_model(mash@.take(i as int)),
        decreases mash.len() - i,
    {
        push_repr(&mut input, &mash[i]);
        proof {
            assert(mash@.take(i as int + 1).drop_last() =~= mash@.take(i as int));
            assert(head + flatten_model(mash@.take(i as int)) + mash@[i as int]@ =~= head + (flatten_model(
                mash@.take(i as int),
            ) + mash@[i as int]@));
        }
        i += 1;
    }
    proof {
        assert(mash@.take(mash.len() as int) =~= mash@);
    }
    *cache = hash_to_scalar(&input);
    *cache
}

/// The scalar that a list of points hashes to.
pub fn hash_commitments(commitments: &Vec<Point>) -> (r: Scalar)
    ensures
        r@ == hash_to_scalar_model(encodings_model(commitments@)),
{
    let mut input: Vec<u8> = Vec::new();
    let mut i: usize = 0;
    proof {
        assert(input@ =~= encodings_model(commitments@.take(0)));
    }
    while i < commitments.len()
        invariant
            i <= commitments.len(),
            input@ == encodings_model(commitments@.take(i as int)),
        decreases commitments.len() - i,
    {
        push_repr(&mut input, &commitments[i].to_bytes());
        proof {
            assert(commitments@.take(i as int + 1).drop_last() =~= commitments@.take(i as int));
        }
        i += 1;
    }
    proof {
        assert(commitments@.take(commitments.len() as int) =~= commitments@);
    }
    hash_to_scalar(&input)
}

/// A blinding scalar, reduced from 128 bytes of entropy, and the
/// commitment it blinds: `sum aL_i G_i + sum aR_i H_i + blind base`.
pub fn alpha_rho(entropy: &[u8; 128], al: &ScalarVector, ar: &ScalarVector, g: &PointVector, h: &PointVector, base: &Point) -> (r: (Scalar, Point))
    requires
        al@.len() == ar@.len(),
        al@.len() <= g@.len(),
        ar@.len() <= h@.len(),
    ensures
        r.0@ == le_nat(entropy@) % modulus(),
        r.1@ == add_model(
            add_model(
                multiexp_model(al@, g@.take(al@.len() as int), al@.len()),
                multiexp_model(ar@, h@.take(ar@.len() as int), ar@.len()),
            ),
            mul_model(base@, r.0@),
        ),
{
    let blind = Scalar::from_wide(entropy);
    (blind, vector_exponent(al, ar, g, h).add(&base.mul(&blind)))
}

/// The powers of two that weigh the bits of an amount.
pub fn two_n() -> (r: ScalarVector)
    ensures
        r@ == Seq::new(64, |i: int| crate::vector::spow(2nat % modulus(), i as nat)),
{
    ScalarVector::powers(&Scalar::from_u64(2), N)
}

} // verus!
