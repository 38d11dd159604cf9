//! The arithmetic of the two-round key generation: a participant's
//! polynomial, its commitments with a proof of knowledge of the constant
//! term, the shares it hands out, the verification of a share against the
//! commitments, and the keys that result.
//!
//! Participants are numbered from one. Participant `i` samples a
//! polynomial `f_i` of degree `t - 1`, commits to its coefficients, and
//! sends `f_i(j)` to participant `j`. The group key is the sum of the
//! commitments to the constant terms, and the secret share of `j` is the
//! sum of the shares sent to it.

use vstd::prelude::*;
use vstd::arithmetic::power::{lemma_pow1, pow};
use vstd::arithmetic::div_mod::lemma_small_mod;
use crate::le::{le_bytes, le_nat};
use crate::modular::lemma_pow_mod_mul;
use crate::point::{add_model, encode_model, generator_model, identity_model, mul_model, same_point, Jacobian, Point};
use crate::range::{hash_to_scalar, hash_to_scalar_model};
use crate::scalar::{lemma_modulus, modulus, Scalar};
use crate::vector::{coordinates, sadd, smul, spow, ssub, values};

verus! {

/// The value of a polynomial over its first `n` coefficients:
/// `sum a_k x^k`.
pub open spec fn eval_model(coefficients: Seq<nat>, x: nat, n: nat) -> nat
    decreases n,
{
    if n == 0 {
        0
    } else {
        sadd(eval_model(coefficients, x, (n - 1) as nat), smul(coefficients[n - 1], spow(x, (n - 1) as nat)))
    }
}

/// The value "in the exponent" of a polynomial given by commitments to
/// its first `n` coefficients: `sum x^k C_k`, added from the left onto the
/// identity.
pub open spec fn commitment_eval_model(commitments: Seq<Jacobian>, x: nat, n: nat) -> Jacobian
    decreases n,
{
    if n == 0 {
        identity_model()
    } else {
        add_model(
            commitment_eval_model(commitments, x, (n - 1) as nat),
            mul_model(commitments[n - 1], spow(x, (n - 1) as nat)),
        )
    }
}

/// The coefficients that wide strings of entropy reduce to, one for each.
pub fn coefficients(entropy: &Vec<[u8; 128]>) -> (r: Vec<Scalar>)
    ensures
        r@.len() == entropy@.len(),
        forall|k: int| 0 <= k < r@.len() ==> (#[trigger] r@[k])@ == le_nat(entropy@[k]@) % modulus(),
{
    let mut out: Vec<Scalar> = Vec::new();
    let mut k: usize = 0;
    while k < entropy.len()
        invariant
            k <= entropy.len(),
            out.len() == k,
            forall|j: int| 0 <= j < k ==> (#[trigger] out@[j])@ == le_nat(entropy@[j]@) % modulus(),
        decreases entropy.len() - k,
    {
        out.push(Scalar::from_wide(&entropy[k]));
        k += 1;
    }
    out
}

/// The value of a polynomial at a point.
pub fn evaluate(coefficients: &Vec<Scalar>, x: &Scalar) -> (r: Scalar)
    ensures
        r@ == eval_model(values(coefficients@), x@, coefficients@.len()),
{
    let mut acc = Scalar::zero();
    let mut power = Scalar::one();
    let mut k: usize = 0;
    x.value_is_reduced();
    proof {
        lemma_modulus();
        reveal(pow);
        lemma_small_mod(1, modulus());
    }
    while k < coefficients.len()
        invariant
            k <= coefficients.len(),
            x@ < modulus(),
            power@ == spow(x@, k as nat),
            acc@ == eval_model(values(coefficients@), x@, k as nat),
        decreases coefficients.len() - k,
    {
        acc = acc.add(&coefficients[k].mul(&power));
        proof {
            lemma_modulus();
            lemma_pow1(x@ as int);
            lemma_small_mod(x@, modulus());
            lemma_pow_mod_mul(x@, k as nat, 1, modulus());
        }
        power = power.mul(x);
        k += 1;
    }
    acc
}

/// The share of a polynomial for a participant: its value at the
/// participant's index.
pub fn share_for(coefficients: &Vec<Scalar>, participant: u16) -> (r: Scalar)
    ensures
        r@ == eval_model(values(coefficients@), participant as nat % modulus(), coefficients@.len()),
{
    evaluate(coefficients, &Scalar::from_u64(participant as u64))
}

/// The commitments to the coefficients of a polynomial: `a_k G` for each.
pub fn commit(coefficients: &Vec<Scalar>) -> (r: Vec<Point>)
    ensures
        r@.len() == coefficients@.len(),
        forall|k: int| 0 <= k < r@.len() ==> (#[trigger] r@[k])@ == mul_model(generator_model(), coefficients@[k]@),
{
    let g = Point::generator();
    let mut out: Vec<Point> = Vec::new();
    let mut k: usize = 0;
    while k < coefficients.len()
        invariant
            k <= coefficients.len(),
            g@ == generator_model(),
            out.len() == k,
            forall|j: int| 0 <= j < k ==> (#[trigger] out@[j])@ == mul_model(generator_model(), coefficients@[j]@),
        decreases coefficients.len() - k,
    {
        out.push(g.mul(&coefficients[k]));
        k += 1;
    }
    out
}

/// The value in the exponent of a committed polynomial at a
/// participant's index: what the share for that participant must
/// multiply the generator to.
pub fn evaluate_commitments(commitments: &Vec<Point>, participant: u16) -> (r: Point)
    ensures
        r@ == commitment_eval_model(
            coordinates(commitments@),
            participant as nat % modulus(),
            commitments@.len(),
        ),
{
    let x = Scalar::from_u64(participant as u64);
    let mut acc = Point::identity();
    let mut power = Scalar::one();
    let mut k: usize = 0;
    x.value_is_reduced();
    proof {
        lemma_modulus();
        reveal(pow);
        lemma_small_mod(1, modulus());
    }
    while k < commitments.len()
        invariant
            k <= commitments.len(),
            x@ < modulus(),
            x@ == participant as nat % modulus(),
            power@ == spow(x@, k as nat),
            acc@ == commitment_eval_model(coordinates(commitments@), x@, k as nat),
        decreases commitments.len() - k,
    {
        acc = acc.add(&commitments[k].mul(&power));
        proof {
            lemma_modulus();
            lemma_pow1(x@ as int);
            lemma_small_mod(x@, modulus());
            lemma_pow_mod_mul(x@, k as nat, 1, modulus());
        }
        power = power.mul(&x);
        k += 1;
    }
    acc
}

/// Whether a share received by a participant is the value of the
/// sender's committed polynomial at the participant's index:
/// `share G = sum j^k C_k`.
pub fn verify_share(commitments: &Vec<Point>, participant: u16, share: &Scalar) -> (r: bool)
    ensures
        r == same_point(
            mul_model(generator_model(), share@),
            commitment_eval_model(
                coordinates(commitments@),
                participant as nat % modulus(),
                commitments@.len(),
            ),
        ),
{
    Point::generator().mul(share).ct_eq(&evaluate_commitments(commitments, participant))
}

/// The sum of the commitments to the constant terms of the first `n`
/// participants' polynomials; the commitment of a participant without
/// one counts as the identity.
pub open spec fn group_key_model(commitments: Seq<Vec<Point>>, n: nat) -> Jacobian
    decreases n,
{
    if n == 0 {
        identity_model()
    } else {
        add_model(
            group_key_model(commitments, (n - 1) as nat),
            if commitments[n - 1]@.len() > 0 {
                commitments[n - 1]@[0]@
            } else {
                identity_model()
            },
        )
    }
}

/// The group key: the sum of every participant's commitment to its
/// constant term.
pub fn group_key(commitments: &Vec<Vec<Point>>) -> (r: Point)
    ensures
        r@ == group_key_model(commitments@, commitments@.len()),
{
    let mut acc = Point::identity();
    let mut i: usize = 0;
    while i < commitments.len()
        invariant
            i <= commitments.len(),
            acc@ == group_key_model(commitments@, i as nat),
        decreases commitments.len() - i,
    {
        let constant = if commitments[i].len() > 0 {
            commitments[i][0]
        } else {
            Point::identity()
        };
        acc = acc.add(&constant);
        i += 1;
    }
    acc
}

/// The sum over the first `n` participants' committed polynomials of
/// their values in the exponent at an index.
pub open spec fn verification_share_model(commitments: Seq<Vec<Point>>, x: nat, n: nat) -> Jacobian
    decreases n,
{
    if n == 0 {
        identity_model()
    } else {
        add_model(
            verification_share_model(commitments, x, (n - 1) as nat),
            commitment_eval_model(coordinates(commitments[n - 1]@), x, commitments[n - 1]@.len()),
        )
    }
}

/// The verification share of a participant: the point that its secret
/// share multiplies the generator to, as the commitments give it.
pub fn verification_share(commitments: &Vec<Vec<Point>>, participant: u16) -> (r: Point)
    ensures
        r@ == verification_share_model(commitments@, participant as nat % modulus(), commitments@.len()),
{
    let mut acc = Point::identity();
    let mut i: usize = 0;
    while i < commitments.len()
        invariant
            i <= commitments.len(),
            acc@ == verification_share_model(commitments@, participant as nat % modulus(), i as nat),
        decreases commitments.len() - i,
    {
        acc = acc.add(&evaluate_commitments(&commitments[i], participant));
        i += 1;
    }
    acc
}

/// The secret share of a participant: the sum of the shares sent to it.
pub fn secret_share(shares: &Vec<Scalar>) -> (r: Scalar)
    ensures
        r@ == crate::vector::sum_model(values(shares@), shares@.len()),
{
    let mut acc = Scalar::zero();
    let mut i: usize = 0;
    while i < shares.len()
        invariant
            i <= shares.len(),
            acc@ == crate::vector::sum_model(values(shares@), i as nat),
        decreases shares.len() - i,
    {
        acc = acc.add(&shares[i]);
        i += 1;
    }
    acc
}

/// The numerator and the denominator of the weight of participant `i` in
/// an interpolation at zero over the first `n` of a list of participants:
/// the products of `j` and of `j - i` over every other participant `j`.
pub open spec fn lagrange_model(i: nat, participants: Seq<u16>, n: nat) -> (nat, nat)
    decreases n,
{
    if n == 0 {
        (1nat % modulus(), 1nat % modulus())
    } else {
        let (num, den) = lagrange_model(i, participants, (n - 1) as nat);
        let j = participants[n - 1] as nat % modulus();
        if j == i {
            (num, den)
        } else {
            (smul(num, j), smul(den, ssub(j, i)))
        }
    }
}

/// The weight of a participant in an interpolation at zero over a list of
/// participants: the product of `j / (j - i)` over every other participant
/// `j`. There is none if the denominator is zero.
pub fn lagrange(participant: u16, participants: &Vec<u16>) -> (r: Option<Scalar>)
    ensures
        ({
            let (num, den) = lagrange_model(
                participant as nat % modulus(),
                participants@,
                participants@.len(),
            );
            &&& r is None <==> den == 0
            &&& r is Some ==> r->Some_0@ == smul(
                num,
                crate::modular::pow_mod(den, (modulus() - 2) as nat, modulus()),
            )
        }),
{
    let i = Scalar::from_u64(participant as u64);
    let mut num = Scalar::one();
    let mut den = Scalar::one();
    let mut k: usize = 0;
    proof {
        lemma_modulus();
        lemma_small_mod(1, modulus());
    }
    while k < participants.len()
        invariant
            k <= participants.len(),
            i@ == participant as nat % modulus(),
            (num@, den@) == lagrange_model(i@, participants@, k as nat),
        decreases participants.len() - k,
    {
        let j = Scalar::from_u64(participants[k] as u64);
        if !j.ct_eq(&i) {
            num = num.mul(&j);
            den = den.mul(&j.sub(&i));
        }
        k += 1;
    }
    match den.invert() {
        Some(inverse) => Some(num.mul(&inverse)),
        None => None,
    }
}

/// The challenge of a proof of knowledge: the hash of the context, the
/// nonce commitment and the public key.
pub open spec fn challenge_model(context: Seq<u8>, nonce: Jacobian, public: Jacobian) -> nat {
    hash_to_scalar_model(context + le_bytes(encode_model(nonce), 33) + le_bytes(encode_model(public), 33))
}

fn challenge(context: &Vec<u8>, nonce: &Point, public: &Point) -> (r: Scalar)
    ensures
        r@ == challenge_model(context@, nonce@, public@),
{
    let mut input: Vec<u8> = Vec::new();
    let mut i: usize = 0;
    while i < context.len()
        invariant
            i <= context.len(),
            input@ == context@.take(i as int),
        decreases context.len() - i,
    {
        input.push(context[i]);
        assert(context@.take(i as int + 1) =~= context@.take(i as int).push(context@[i as int]));
        i += 1;
    }
    assert(context@.take(context.len() as int) =~= context@);
    push_encoding(&mut input, nonce);
    push_encoding(&mut input, public);
    hash_to_scalar(&input)
}

fn push_encoding(out: &mut Vec<u8>, p: &Point)
    ensures
        final(out)@ == old(out)@ + le_bytes(encode_model(p@), 33),
{
    let bytes = p.to_bytes();
    let ghost before = out@;
    let mut i: usize = 0;
    while i < 33
        invariant
            i <= 33,
            out@ == before + bytes@.take(i as int),
        decreases 33 - i,
    {
        out.push(bytes[i]);
        assert(before + bytes@.take(i as int + 1) =~= (before + bytes@.take(i as int)).push(bytes@[i as int]));
        i += 1;
    }
    assert(bytes@.take(33) =~= bytes@);
}

/// A proof of knowledge of a secret: a nonce commitment and a response.
#[derive(Clone, Copy, Debug)]
pub struct ProofOfKnowledge {
    pub nonce: Point,
    pub response: Scalar,
}

/// Proves knowledge of the secret behind `secret G`, bound to a context:
/// the nonce commitment `k G`, and the response `k + c secret` to the
/// challenge `c`.
pub fn prove_knowledge(secret: &Scalar, nonce: &Scalar, context: &Vec<u8>) -> (r: ProofOfKnowledge)
    ensures
        r.nonce@ == mul_model(generator_model(), nonce@),
        r.response@ == sadd(
            nonce@,
            smul(
                challenge_model(context@, r.nonce@, mul_model(generator_model(), secret@)),
                secret@,
            ),
        ),
{
    let g = Point::generator();
    let commitment = g.mul(nonce);
    let public = g.mul(secret);
    let c = challenge(context, &commitment, &public);
    ProofOfKnowledge { nonce: commitment, response: nonce.add(&c.mul(secret)) }
}

/// Whether a proof shows knowledge of the secret behind a public key,
/// bound to a context: `response G = nonce + c public`.
pub fn verify_knowledge(public: &Point, context: &Vec<u8>, proof: &ProofOfKnowledge) -> (r: bool)
    ensures
        r == same_point(
            mul_model(generator_model(), proof.response@),
            add_model(proof.nonce@, mul_model(public@, challenge_model(context@, proof.nonce@, public@))),
        ),
{
    let c = challenge(context, &proof.nonce, public);
    Point::generator().mul(&proof.response).ct_eq(&proof.nonce.add(&public.mul(&c)))
}


/// The secret is the share at zero: a polynomial's value at zero is its
/// constant term.
pub proof fn lemma_eval_at_zero(coefficients: Seq<nat>, n: nat)
    requires
        1 <= n <= coefficients.len(),
        coefficients[0] < modulus(),
    ensures
        eval_model(coefficients, 0, n) == coefficients[0],
    decreases n,
{
    lemma_modulus();
    let q = modulus();
    lemma_small_mod(0, q);
    lemma_small_mod(1, q);
    if n == 1 {
        reveal(pow);
        assert(eval_model(coefficients, 0, 0) == 0);
        assert(spow(0, 0) == 1);
        assert(coefficients[0] * 1 == coefficients[0]);
        lemma_small_mod(coefficients[0], q);
    } else {
        lemma_eval_at_zero(coefficients, (n - 1) as nat);
        vstd::arithmetic::power::lemma0_pow((n - 1) as nat);
        assert(spow(0, (n - 1) as nat) == 0);
        assert(coefficients[n - 1] * 0 == 0);
        lemma_small_mod(coefficients[0], q);
    }
}

} // verus!
