//! The weighted-inner-product argument: a proof of knowledge of vectors
//! `a`, `b` and a blind `alpha` with
//! `P = <a, b>_y g + alpha h + sum a_i G_i + sum b_i H_i`.
//!
//! Each round halves the vectors: the prover sends two cross-terms `L`
//! and `R`, a challenge `e` is drawn from the transcript, and the
//! vectors, the generators and the commitment are folded by `e` and its
//! inverse. At length one the prover blinds what is left by two more
//! commitments `A` and `B` and answers a last challenge.
//!
//! The challenges are drawn by hashing: the transcript is a scalar that
//! each step replaces by the hash of itself and the points just sent.

use vstd::prelude::*;
use crate::le::{le_bytes, le_nat};
use crate::modular::pow_mod;
use crate::point::{add_model, encode_model, mul_model, same_point, Jacobian, Point};
use crate::proving::{WipStatement, WipWitness};
use crate::range::{hash_cache, hash_to_scalar_model};
use crate::scalar::{modulus, Scalar};
use crate::vector::{
    coordinates, multiexp_model, sadd, smul, spow, values, weighted_inner_product_model, PointVector,
    ScalarVector,
};

verus! {

/// A weighted-inner-product proof.
pub struct WipProof {
    /// The left cross-term of each round.
    pub l: Vec<Point>,
    /// The right cross-term of each round.
    pub r: Vec<Point>,
    /// The two blinding commitments of the last step.
    pub a: Point,
    pub b: Point,
    /// The three answers of the last step.
    pub r_answer: Scalar,
    pub s_answer: Scalar,
    pub delta_answer: Scalar,
}

/// The inverse of a non-zero scalar, as [`Scalar::invert`] computes it.
pub open spec fn sinv(a: nat) -> nat {
    pow_mod(a, (modulus() - 2) as nat, modulus())
}

/// The transcript after two points were sent: the hash of the transcript
/// and the encodings of the points. It is the challenge that follows
/// them.
pub open spec fn absorb_model(transcript: nat, first: Jacobian, second: Jacobian) -> nat {
    hash_to_scalar_model(
        le_bytes(transcript, 33) + (le_bytes(encode_model(first), 33) + le_bytes(encode_model(second), 33)),
    )
}

/// Sends two points to the transcript and draws the challenge that
/// follows them.
pub fn absorb(transcript: &mut Scalar, first: &Point, second: &Point) -> (r: Scalar)
    ensures
        final(transcript)@ == absorb_model(old(transcript)@, first@, second@),
        r == *final(transcript),
{
    let mut mash: Vec<[u8; 33]> = Vec::new();
    mash.push(first.to_bytes());
    mash.push(second.to_bytes());
    proof {
        reveal_with_fuel(crate::range::flatten_model, 3);
        assert(mash@.drop_last() =~= seq![mash@[0]]);
        assert(mash@.drop_last().drop_last() =~= Seq::<[u8; 33]>::empty());
        assert(crate::range::flatten_model(mash@) =~= le_bytes(encode_model(first@), 33) + le_bytes(
            encode_model(second@),
            33,
        ));
    }
    hash_cache(transcript, &mash)
}

/// Entry `i` of a combination of two vectors of scalars:
/// `x_i cx + z_i cz`.
pub open spec fn combine_scalars_model(x: Seq<nat>, cx: nat, z: Seq<nat>, cz: nat) -> Seq<nat> {
    Seq::new(x.len(), |i: int| sadd(smul(x[i], cx), smul(z[i], cz)))
}

/// Entry `i` of a combination of two vectors of points:
/// `cx X_i + cz Z_i`.
pub open spec fn combine_points_model(x: Seq<Jacobian>, cx: nat, z: Seq<Jacobian>, cz: nat) -> Seq<Jacobian> {
    Seq::new(x.len(), |i: int| add_model(mul_model(x[i], cx), mul_model(z[i], cz)))
}

fn combine_scalars(x: &Vec<Scalar>, cx: &Scalar, z: &Vec<Scalar>, cz: &Scalar) -> (r: Vec<Scalar>)
    requires
        x@.len() == z@.len(),
    ensures
        values(r@) == combine_scalars_model(values(x@), cx@, values(z@), cz@),
        r@.len() == x@.len(),
{
    let mut out: Vec<Scalar> = Vec::new();
    let mut i: usize = 0;
    while i < x.len()
        invariant
            i <= x.len(),
            x.len() == z.len(),
            out.len() == i,
            forall|k: int| 0 <= k < i ==> (#[trigger] out@[k])@ == sadd(smul(x@[k]@, cx@), smul(z@[k]@, cz@)),
        decreases x.len() - i,
    {
        out.push(x[i].mul(cx).add(&z[i].mul(cz)));
        i += 1;
    }
    assert(values(out@) =~= combine_scalars_model(values(x@), cx@, values(z@), cz@));
    out
}

fn combine_points(x: &Vec<Point>, cx: &Scalar, z: &Vec<Point>, cz: &Scalar) -> (r: Vec<Point>)
    requires
        x@.len() == z@.len(),
    ensures
        coordinates(r@) == combine_points_model(coordinates(x@), cx@, coordinates(z@), cz@),
        r@.len() == x@.len(),
{
    let mut out: Vec<Point> = Vec::new();
    let mut i: usize = 0;
    while i < x.len()
        invariant
            i <= x.len(),
            x.len() == z.len(),
            out.len() == i,
            forall|k: int|
                0 <= k < i ==> (#[trigger] out@[k])@ == add_model(mul_model(x@[k]@, cx@), mul_model(z@[k]@, cz@)),
        decreases x.len() - i,
    {
        out.push(x[i].mul(cx).add(&z[i].mul(cz)));
        i += 1;
    }
    assert(coordinates(out@) =~= combine_points_model(coordinates(x@), cx@, coordinates(z@), cz@));
    out
}

fn scalars_range(v: &Vec<Scalar>, from: usize, to: usize) -> (r: Vec<Scalar>)
    requires
        from <= to <= v@.len(),
    ensures
        r@ == v@.subrange(from as int, to as int),
{
    let mut out: Vec<Scalar> = Vec::new();
    let mut i: usize = from;
    while i < to
        invariant
            from <= i <= to <= v.len(),
            out@ == v@.subrange(from as int, i as int),
        decreases to - i,
    {
        out.push(v[i]);
        assert(v@.subrange(from as int, i as int + 1) =~= v@.subrange(from as int, i as int).push(v@[i as int]));
        i += 1;
    }
    out
}

fn points_range(v: &Vec<Point>, from: usize, to: usize) -> (r: Vec<Point>)
    requires
        from <= to <= v@.len(),
    ensures
        r@ == v@.subrange(from as int, to as int),
{
    let mut out: Vec<Point> = Vec::new();
    let mut i: usize = from;
    while i < to
        invariant
            from <= i <= to <= v.len(),
            out@ == v@.subrange(from as int, i as int),
        decreases to - i,
    {
        out.push(v[i]);
        assert(v@.subrange(from as int, i as int + 1) =~= v@.subrange(from as int, i as int).push(v@[i as int]));
        i += 1;
    }
    out
}

/// A cross-term: `sum a_i G_i + sum b_i H_i + c g + d h`.
pub open spec fn cross_model(
    a: Seq<nat>,
    g_bold: Seq<Jacobian>,
    b: Seq<nat>,
    h_bold: Seq<Jacobian>,
    c: nat,
    g: Jacobian,
    d: nat,
    h: Jacobian,
) -> Jacobian {
    add_model(
        add_model(add_model(multiexp_model(a, g_bold, g_bold.len()), multiexp_model(b, h_bold, h_bold.len())), mul_model(g, c)),
        mul_model(h, d),
    )
}

fn cross(a: Vec<Scalar>, g_bold: Vec<Point>, b: Vec<Scalar>, h_bold: Vec<Point>, c: &Scalar, g: &Point, d: &Scalar, h: &Point) -> (r:
    Point)
    requires
        a@.len() == g_bold@.len(),
        b@.len() == h_bold@.len(),
    ensures
        r@ == cross_model(
            values(a@),
            coordinates(g_bold@),
            values(b@),
            coordinates(h_bold@),
            c@,
            g@,
            d@,
            h@,
        ),
{
    let left = PointVector(g_bold).multiexp(&ScalarVector(a));
    let right = PointVector(h_bold).multiexp(&ScalarVector(b));
    left.add(&right).add(&g.mul(c)).add(&h.mul(d))
}


/// [`WipProof`] as a value of contracts.
pub ghost struct WipProofModel {
    pub l: Seq<Jacobian>,
    pub r: Seq<Jacobian>,
    pub a: Jacobian,
    pub b: Jacobian,
    pub r_answer: nat,
    pub s_answer: nat,
    pub delta_answer: nat,
}

impl View for WipProof {
    type V = WipProofModel;

    open spec fn view(&self) -> WipProofModel {
        WipProofModel {
            l: coordinates(self.l@),
            r: coordinates(self.r@),
            a: self.a@,
            b: self.b@,
            r_answer: self.r_answer@,
            s_answer: self.s_answer@,
            delta_answer: self.delta_answer@,
        }
    }
}

/// The scalar that one string of entropy reduces to.
pub open spec fn blind_model(entropy: Seq<[u8; 128]>, k: nat) -> nat {
    le_nat(entropy[k as int]@) % modulus()
}

/// Every entry of a vector multiplied by one scalar.
pub open spec fn scale_model(a: Seq<nat>, c: nat) -> Seq<nat> {
    Seq::new(a.len(), |i: int| smul(a[i], c))
}

/// The left cross-term of a round over vectors of even length `2 m`:
/// `sum (y^-m a1_i) G2_i + sum b2_i H1_i + <a1, b2>_y g + dl h`.
pub open spec fn left_model(g: Jacobian, h: Jacobian, g_bold: Seq<Jacobian>, h_bold: Seq<Jacobian>, a: Seq<nat>, b: Seq<nat>, y: nat, dl: nat) -> Jacobian {
    let m = a.len() / 2;
    let a1 = a.take(m as int);
    let b2 = b.skip(m as int);
    cross_model(
        scale_model(a1, sinv(spow(y, m))),
        g_bold.skip(m as int),
        b2,
        h_bold.take(m as int),
        weighted_inner_product_model(a1, b2, y, m),
        g,
        dl,
        h,
    )
}

/// The right cross-term of a round:
/// `sum (y^m a2_i) G1_i + sum b1_i H2_i + <y^m a2, b1>_y g + dr h`.
pub open spec fn right_model(g: Jacobian, h: Jacobian, g_bold: Seq<Jacobian>, h_bold: Seq<Jacobian>, a: Seq<nat>, b: Seq<nat>, y: nat, dr: nat) -> Jacobian {
    let m = a.len() / 2;
    let a2 = scale_model(a.skip(m as int), spow(y, m));
    let b1 = b.take(m as int);
    cross_model(
        a2,
        g_bold.take(m as int),
        b1,
        h_bold.skip(m as int),
        weighted_inner_product_model(a2, b1, y, m),
        g,
        dr,
        h,
    )
}

/// The generators of the next round: `e^-1 G1 + e y^-m G2` and
/// `e H1 + e^-1 H2`.
pub open spec fn fold_generators_model(g_bold: Seq<Jacobian>, h_bold: Seq<Jacobian>, y: nat, e: nat) -> (
    Seq<Jacobian>,
    Seq<Jacobian>,
) {
    let m = g_bold.len() / 2;
    (
        combine_points_model(
            g_bold.take(m as int),
            sinv(e),
            g_bold.skip(m as int),
            smul(e, sinv(spow(y, m))),
        ),
        combine_points_model(h_bold.take(m as int), e, h_bold.skip(m as int), sinv(e)),
    )
}

/// The vectors of the next round: `e a1 + y^m e^-1 a2` and
/// `e^-1 b1 + e b2`.
pub open spec fn fold_witness_model(a: Seq<nat>, b: Seq<nat>, y: nat, e: nat) -> (Seq<nat>, Seq<nat>) {
    let m = a.len() / 2;
    (
        combine_scalars_model(a.take(m as int), e, a.skip(m as int), smul(spow(y, m), sinv(e))),
        combine_scalars_model(b.take(m as int), sinv(e), b.skip(m as int), e),
    )
}

/// The last step of the proof, over vectors of length one: the blinding
/// commitments `A = r G + s H + (r y b + s y a) g + delta h` and
/// `B = (r y s) g + eta h`, and the answers `r + a e`, `s + b e` and
/// `eta + delta e + alpha e^2` to the challenge `e` that follows them.
pub open spec fn last_step_model(
    g: Jacobian,
    h: Jacobian,
    g_bold: Seq<Jacobian>,
    h_bold: Seq<Jacobian>,
    a: nat,
    b: nat,
    alpha: nat,
    y: nat,
    transcript: nat,
    r: nat,
    s: nat,
    delta: nat,
    eta: nat,
) -> WipProofModel {
    let big_a = cross_model(
        seq![r],
        g_bold,
        seq![s],
        h_bold,
        sadd(smul(smul(r, y), b), smul(smul(s, y), a)),
        g,
        delta,
        h,
    );
    let big_b = add_model(mul_model(g, smul(smul(r, y), s)), mul_model(h, eta));
    let e = absorb_model(transcript, big_a, big_b);
    WipProofModel {
        l: Seq::empty(),
        r: Seq::empty(),
        a: big_a,
        b: big_b,
        r_answer: sadd(r, smul(a, e)),
        s_answer: sadd(s, smul(b, e)),
        delta_answer: sadd(sadd(eta, smul(delta, e)), smul(alpha, smul(e, e))),
    }
}

/// The proof that the prover makes, from the transcript and the entropy
/// that are left; none if the length is not a power of two, if the
/// entropy runs out, or if `y` or a challenge is zero.
pub open spec fn prove_model(
    g: Jacobian,
    h: Jacobian,
    g_bold: Seq<Jacobian>,
    h_bold: Seq<Jacobian>,
    a: Seq<nat>,
    b: Seq<nat>,
    alpha: nat,
    y: nat,
    transcript: nat,
    entropy: Seq<[u8; 128]>,
    used: nat,
) -> Option<WipProofModel>
    decreases a.len(),
{
    let n = a.len();
    let m = n / 2;
    if n == 0 {
        None
    } else if n == 1 {
        if used + 4 > entropy.len() {
            None
        } else {
            Some(
                last_step_model(
                    g,
                    h,
                    g_bold,
                    h_bold,
                    a[0],
                    b[0],
                    alpha,
                    y,
                    transcript,
                    blind_model(entropy, used),
                    blind_model(entropy, used + 1),
                    blind_model(entropy, used + 2),
                    blind_model(entropy, used + 3),
                ),
            )
        }
    } else if n % 2 == 1 || used + 2 > entropy.len() || spow(y, m) == 0 {
        None
    } else {
        let dl = blind_model(entropy, used);
        let dr = blind_model(entropy, used + 1);
        let big_l = left_model(g, h, g_bold, h_bold, a, b, y, dl);
        let big_r = right_model(g, h, g_bold, h_bold, a, b, y, dr);
        let e = absorb_model(transcript, big_l, big_r);
        let folded = fold_generators_model(g_bold, h_bold, y, e);
        let next = fold_witness_model(a, b, y, e);
        let next_alpha = sadd(sadd(smul(dl, smul(e, e)), alpha), smul(dr, smul(sinv(e), sinv(e))));
        if e == 0 {
            None
        } else {
            match prove_model(g, h, folded.0, folded.1, next.0, next.1, next_alpha, y, e, entropy, used + 2) {
                None => None,
                Some(rest) => Some(WipProofModel { l: seq![big_l] + rest.l, r: seq![big_r] + rest.r, ..rest }),
            }
        }
    }
}

/// Whether the verifier accepts what is left of a proof from round
/// `round` on, against the folded generators and commitment.
///
/// At length one it checks
/// `e^2 P + e A + B = (r' e) G + (s' e) H + (r' y s') g + delta' h`.
/// Above, it folds the generators as the prover does and the commitment
/// to `e^2 L + P + e^-2 R`.
pub open spec fn verify_model(
    g: Jacobian,
    h: Jacobian,
    g_bold: Seq<Jacobian>,
    h_bold: Seq<Jacobian>,
    p: Jacobian,
    y: nat,
    transcript: nat,
    proof: WipProofModel,
    round: nat,
) -> bool
    decreases g_bold.len(),
{
    let n = g_bold.len();
    let m = n / 2;
    if n == 0 {
        false
    } else if n == 1 {
        let e = absorb_model(transcript, proof.a, proof.b);
        let left = add_model(add_model(mul_model(p, smul(e, e)), mul_model(proof.a, e)), proof.b);
        let right = add_model(
            add_model(
                add_model(
                    mul_model(g_bold[0], smul(proof.r_answer, e)),
                    mul_model(h_bold[0], smul(proof.s_answer, e)),
                ),
                mul_model(g, smul(smul(proof.r_answer, y), proof.s_answer)),
            ),
            mul_model(h, proof.delta_answer),
        );
        round == proof.l.len() && round == proof.r.len() && same_point(left, right)
    } else if n % 2 == 1 || round >= proof.l.len() || round >= proof.r.len() || spow(y, m) == 0 {
        false
    } else {
        let big_l = proof.l[round as int];
        let big_r = proof.r[round as int];
        let e = absorb_model(transcript, big_l, big_r);
        let folded = fold_generators_model(g_bold, h_bold, y, e);
        let next_p = add_model(
            add_model(mul_model(big_l, smul(e, e)), p),
            mul_model(big_r, smul(sinv(e), sinv(e))),
        );
        e != 0 && verify_model(g, h, folded.0, folded.1, next_p, y, e, proof, round + 1)
    }
}

/// The transcript at the start of a proof: the weight `y`, the
/// commitment and the generator `g`, hashed.
pub open spec fn start_model(y: nat, p: Jacobian, g: Jacobian) -> nat {
    absorb_model(y, p, g)
}


/// An optional proof as a value of contracts.
pub open spec fn proof_model(p: Option<WipProof>) -> Option<WipProofModel> {
    match p {
        Some(p) => Some(p@),
        None => None,
    }
}

fn single(x: Scalar) -> (r: Vec<Scalar>)
    ensures
        values(r@) == seq![x@],
        r@.len() == 1,
{
    let mut r: Vec<Scalar> = Vec::new();
    r.push(x);
    assert(values(r@) =~= seq![x@]);
    r
}

/// `y^m` for a length `m`.
fn power_of(y: &Scalar, m: usize) -> (r: Scalar)
    ensures
        r@ == spow(y@, m as nat),
{
    proof {
        crate::scalar::lemma_modulus_value();
        vstd::arithmetic::div_mod::lemma_small_mod(m as nat, modulus());
    }
    y.pow(&Scalar::from_u64(m as u64))
}

fn last_step(
    g: &Point,
    h: &Point,
    g_bold: Vec<Point>,
    h_bold: Vec<Point>,
    a: &Scalar,
    b: &Scalar,
    alpha: &Scalar,
    y: &Scalar,
    transcript: Scalar,
    blinds: (Scalar, Scalar, Scalar, Scalar),
) -> (proof: WipProof)
    requires
        g_bold@.len() == 1,
        h_bold@.len() == 1,
    ensures
        proof@ == last_step_model(
            g@,
            h@,
            coordinates(g_bold@),
            coordinates(h_bold@),
            a@,
            b@,
            alpha@,
            y@,
            transcript@,
            blinds.0@,
            blinds.1@,
            blinds.2@,
            blinds.3@,
        ),
{
    let (r, s, delta, eta) = blinds;
    let mut transcript = transcript;
    let c = r.mul(y).mul(b).add(&s.mul(y).mul(a));
    let big_a = cross(single(r), g_bold, single(s), h_bold, &c, g, &delta, h);
    let big_b = g.mul(&r.mul(y).mul(&s)).add(&h.mul(&eta));
    let e = absorb(&mut transcript, &big_a, &big_b);
    let proof = WipProof {
        l: Vec::new(),
        r: Vec::new(),
        a: big_a,
        b: big_b,
        r_answer: r.add(&a.mul(&e)),
        s_answer: s.add(&b.mul(&e)),
        delta_answer: eta.add(&delta.mul(&e)).add(&alpha.mul(&e.mul(&e))),
    };
    proof {
        assert(coordinates(proof.l@) =~= Seq::<Jacobian>::empty());
        assert(coordinates(proof.r@) =~= Seq::<Jacobian>::empty());
    }
    proof
}

fn left_term(
    g: &Point,
    h: &Point,
    g_bold: &Vec<Point>,
    h_bold: &Vec<Point>,
    a: &Vec<Scalar>,
    b: &Vec<Scalar>,
    y: &Scalar,
    yn_inv: &Scalar,
    dl: &Scalar,
) -> (r: Point)
    requires
        g_bold@.len() == a@.len(),
        h_bold@.len() == a@.len(),
        b@.len() == a@.len(),
        a@.len() % 2 == 0,
        yn_inv@ == sinv(spow(y@, a@.len() / 2)),
    ensures
        r@ == left_model(g@, h@, coordinates(g_bold@), coordinates(h_bold@), values(a@), values(b@), y@, dl@),
{
    let n = a.len();
    let m = n / 2;
    let a1 = ScalarVector(scalars_range(a, 0, m));
    let b2 = ScalarVector(scalars_range(b, m, n));
    let g2 = points_range(g_bold, m, n);
    let h1 = points_range(h_bold, 0, m);
    let c = a1.weighted_inner_product(&b2, y);
    let scaled = a1.scale(yn_inv);
    proof {
        assert(a1@ =~= values(a@).take(m as int));
        assert(b2@ =~= values(b@).skip(m as int));
        assert(scaled@ =~= scale_model(values(a@).take(m as int), yn_inv@));
        assert(coordinates(g2@) =~= coordinates(g_bold@).skip(m as int));
        assert(coordinates(h1@) =~= coordinates(h_bold@).take(m as int));
    }
    cross(scaled.0, g2, b2.0, h1, &c, g, dl, h)
}

fn right_term(
    g: &Point,
    h: &Point,
    g_bold: &Vec<Point>,
    h_bold: &Vec<Point>,
    a: &Vec<Scalar>,
    b: &Vec<Scalar>,
    y: &Scalar,
    yn: &Scalar,
    dr: &Scalar,
) -> (r: Point)
    requires
        g_bold@.len() == a@.len(),
        h_bold@.len() == a@.len(),
        b@.len() == a@.len(),
        a@.len() % 2 == 0,
        yn@ == spow(y@, a@.len() / 2),
    ensures
        r@ == right_model(g@, h@, coordinates(g_bold@), coordinates(h_bold@), values(a@), values(b@), y@, dr@),
{
    let n = a.len();
    let m = n / 2;
    let a2 = ScalarVector(scalars_range(a, m, n));
    let b1 = ScalarVector(scalars_range(b, 0, m));
    let g1 = points_range(g_bold, 0, m);
    let h2 = points_range(h_bold, m, n);
    let scaled = a2.scale(yn);
    let c = scaled.weighted_inner_product(&b1, y);
    proof {
        assert(a2@ =~= values(a@).skip(m as int));
        assert(b1@ =~= values(b@).take(m as int));
        assert(scaled@ =~= scale_model(values(a@).skip(m as int), yn@));
        assert(coordinates(g1@) =~= coordinates(g_bold@).take(m as int));
        assert(coordinates(h2@) =~= coordinates(h_bold@).skip(m as int));
    }
    cross(scaled.0, g1, b1.0, h2, &c, g, dr, h)
}

fn fold_generators(
    g_bold: &Vec<Point>,
    h_bold: &Vec<Point>,
    y: &Scalar,
    yn_inv: &Scalar,
    e: &Scalar,
    e_inv: &Scalar,
) -> (r: (Vec<Point>, Vec<Point>))
    requires
        g_bold@.len() == h_bold@.len(),
        g_bold@.len() % 2 == 0,
        yn_inv@ == sinv(spow(y@, g_bold@.len() / 2)),
        e_inv@ == sinv(e@),
    ensures
        (coordinates(r.0@), coordinates(r.1@)) == fold_generators_model(
            coordinates(g_bold@),
            coordinates(h_bold@),
            y@,
            e@,
        ),
        r.0@.len() == g_bold@.len() / 2,
        r.1@.len() == g_bold@.len() / 2,
{
    let n = g_bold.len();
    let m = n / 2;
    let g1 = points_range(g_bold, 0, m);
    let g2 = points_range(g_bold, m, n);
    let h1 = points_range(h_bold, 0, m);
    let h2 = points_range(h_bold, m, n);
    proof {
        assert(coordinates(g1@) =~= coordinates(g_bold@).take(m as int));
        assert(coordinates(g2@) =~= coordinates(g_bold@).skip(m as int));
        assert(coordinates(h1@) =~= coordinates(h_bold@).take(m as int));
        assert(coordinates(h2@) =~= coordinates(h_bold@).skip(m as int));
    }
    (combine_points(&g1, e_inv, &g2, &e.mul(yn_inv)), combine_points(&h1, e, &h2, e_inv))
}

fn fold_witness(a: &Vec<Scalar>, b: &Vec<Scalar>, y: &Scalar, yn: &Scalar, e: &Scalar, e_inv: &Scalar) -> (r: (
    Vec<Scalar>,
    Vec<Scalar>,
))
    requires
        a@.len() == b@.len(),
        a@.len() % 2 == 0,
        yn@ == spow(y@, a@.len() / 2),
        e_inv@ == sinv(e@),
    ensures
        (values(r.0@), values(r.1@)) == fold_witness_model(values(a@), values(b@), y@, e@),
        r.0@.len() == a@.len() / 2,
        r.1@.len() == a@.len() / 2,
{
    let n = a.len();
    let m = n / 2;
    let a1 = scalars_range(a, 0, m);
    let a2 = scalars_range(a, m, n);
    let b1 = scalars_range(b, 0, m);
    let b2 = scalars_range(b, m, n);
    proof {
        assert(values(a1@) =~= values(a@).take(m as int));
        assert(values(a2@) =~= values(a@).skip(m as int));
        assert(values(b1@) =~= values(b@).take(m as int));
        assert(values(b2@) =~= values(b@).skip(m as int));
    }
    (combine_scalars(&a1, e, &a2, &yn.mul(e_inv)), combine_scalars(&b1, e_inv, &b2, e))
}

/// A proof with the cross-terms of one more round in front.
fn prepend(big_l: Point, big_r: Point, rest: WipProof) -> (r: WipProof)
    ensures
        r@ == (WipProofModel { l: seq![big_l@] + rest@.l, r: seq![big_r@] + rest@.r, ..rest@ }),
{
    let WipProof { l, r, a, b, r_answer, s_answer, delta_answer } = rest;
    let mut l = l;
    let mut r = r;
    let ghost rest_l = coordinates(l@);
    let ghost rest_r = coordinates(r@);
    l.insert(0, big_l);
    r.insert(0, big_r);
    proof {
        assert(coordinates(l@) =~= seq![big_l@] + rest_l);
        assert(coordinates(r@) =~= seq![big_r@] + rest_r);
    }
    WipProof { l, r, a, b, r_answer, s_answer, delta_answer }
}

fn prove_rounds(
    g: &Point,
    h: &Point,
    g_bold: Vec<Point>,
    h_bold: Vec<Point>,
    a: Vec<Scalar>,
    b: Vec<Scalar>,
    alpha: Scalar,
    y: &Scalar,
    transcript: Scalar,
    entropy: &Vec<[u8; 128]>,
    used: usize,
) -> (r: Option<WipProof>)
    requires
        g_bold@.len() == a@.len(),
        h_bold@.len() == a@.len(),
        b@.len() == a@.len(),
        used <= entropy@.len(),
    ensures
        proof_model(r) == prove_model(
            g@,
            h@,
            coordinates(g_bold@),
            coordinates(h_bold@),
            values(a@),
            values(b@),
            alpha@,
            y@,
            transcript@,
            entropy@,
            used as nat,
        ),
    decreases a@.len(),
{
    let n = a.len();
    let mut transcript = transcript;
    if n == 0 {
        return None;
    }
    if n == 1 {
        if entropy.len() - used < 4 {
            return None;
        }
        let blinds = (
            Scalar::from_wide(&entropy[used]),
            Scalar::from_wide(&entropy[used + 1]),
            Scalar::from_wide(&entropy[used + 2]),
            Scalar::from_wide(&entropy[used + 3]),
        );
        return Some(last_step(g, h, g_bold, h_bold, &a[0], &b[0], &alpha, y, transcript, blinds));
    }
    let m = n / 2;
    if n % 2 == 1 || entropy.len() - used < 2 {
        return None;
    }
    let yn = power_of(y, m);
    let yn_inv = match yn.invert() {
        Some(inverse) => inverse,
        None => {
            return None;
        },
    };
    let dl = Scalar::from_wide(&entropy[used]);
    let dr = Scalar::from_wide(&entropy[used + 1]);
    let big_l = left_term(g, h, &g_bold, &h_bold, &a, &b, y, &yn_inv, &dl);
    let big_r = right_term(g, h, &g_bold, &h_bold, &a, &b, y, &yn, &dr);
    let e = absorb(&mut transcript, &big_l, &big_r);
    let e_inv = match e.invert() {
        Some(inverse) => inverse,
        None => {
            return None;
        },
    };
    let (next_g, next_h) = fold_generators(&g_bold, &h_bold, y, &yn_inv, &e, &e_inv);
    let (next_a, next_b) = fold_witness(&a, &b, y, &yn, &e, &e_inv);
    let next_alpha = dl.mul(&e.mul(&e)).add(&alpha).add(&dr.mul(&e_inv.mul(&e_inv)));
    match prove_rounds(g, h, next_g, next_h, next_a, next_b, next_alpha, y, e, entropy, used + 2) {
        None => None,
        Some(rest) => Some(prepend(big_l, big_r, rest)),
    }
}

fn verify_rounds(
    g: &Point,
    h: &Point,
    g_bold: Vec<Point>,
    h_bold: Vec<Point>,
    p: Point,
    y: &Scalar,
    transcript: Scalar,
    proof: &WipProof,
    round: usize,
) -> (r: bool)
    requires
        g_bold@.len() == h_bold@.len(),
    ensures
        r == verify_model(
            g@,
            h@,
            coordinates(g_bold@),
            coordinates(h_bold@),
            p@,
            y@,
            transcript@,
            proof@,
            round as nat,
        ),
    decreases g_bold@.len(),
{
    let n = g_bold.len();
    let mut transcript = transcript;
    if n == 0 {
        return false;
    }
    if n == 1 {
        let e = absorb(&mut transcript, &proof.a, &proof.b);
        let left = p.mul(&e.mul(&e)).add(&proof.a.mul(&e)).add(&proof.b);
        let right = g_bold[0].mul(&proof.r_answer.mul(&e)).add(&h_bold[0].mul(&proof.s_answer.mul(&e))).add(
            &g.mul(&proof.r_answer.mul(y).mul(&proof.s_answer)),
        ).add(&h.mul(&proof.delta_answer));
        let same = left.ct_eq(&right);
        return round == proof.l.len() && round == proof.r.len() && same;
    }
    let m = n / 2;
    if n % 2 == 1 || round >= proof.l.len() || round >= proof.r.len() {
        return false;
    }
    let yn = power_of(y, m);
    let yn_inv = match yn.invert() {
        Some(inverse) => inverse,
        None => {
            return false;
        },
    };
    let big_l = proof.l[round];
    let big_r = proof.r[round];
    let e = absorb(&mut transcript, &big_l, &big_r);
    let e_inv = match e.invert() {
        Some(inverse) => inverse,
        None => {
            return false;
        },
    };
    proof {
        assert(coordinates(proof.l@)[round as int] == big_l@);
        assert(coordinates(proof.r@)[round as int] == big_r@);
    }
    let (next_g, next_h) = fold_generators(&g_bold, &h_bold, y, &yn_inv, &e, &e_inv);
    let next_p = big_l.mul(&e.mul(&e)).add(&p).add(&big_r.mul(&e_inv.mul(&e_inv)));
    verify_rounds(g, h, next_g, next_h, next_p, y, e, proof, round + 1)
}

impl WipStatement {
    /// The proof of the statement that a witness, a weight and entropy
    /// give, from a fresh transcript.
    pub open spec fn proof_of(&self, witness: WipWitness, y: nat, entropy: Seq<[u8; 128]>) -> Option<
        WipProofModel,
    > {
        prove_model(
            self.g@,
            self.h@,
            self.g_bold@,
            self.h_bold@,
            witness.a@,
            witness.b@,
            witness.alpha@,
            y,
            start_model(y, self.p@, self.g@),
            entropy,
            0,
        )
    }

    /// Whether a proof is accepted for the statement under a weight.
    pub open spec fn accepts(&self, proof: WipProofModel, y: nat) -> bool {
        verify_model(
            self.g@,
            self.h@,
            self.g_bold@,
            self.h_bold@,
            self.p@,
            y,
            start_model(y, self.p@, self.g@),
            proof,
            0,
        )
    }

    /// Proves the statement from a witness that opens it, with the blinds
    /// of the proof reduced from the entropy given: two strings for each
    /// halving and four for the last step. There is no proof if the
    /// length is not a power of two, if the entropy runs out, or if `y`
    /// or a challenge is zero.
    pub fn prove(&self, witness: &WipWitness, y: &Scalar, entropy: &Vec<[u8; 128]>) -> (r: Option<WipProof>)
        requires
            self.g_bold@.len() == witness.a@.len(),
            self.h_bold@.len() == witness.a@.len(),
            witness.b@.len() == witness.a@.len(),
        ensures
            proof_model(r) == self.proof_of(*witness, y@, entropy@),
    {
        let mut transcript = *y;
        absorb(&mut transcript, &self.p, &self.g);
        let n = witness.a.0.len();
        proof {
            assert(self.g_bold.0@.subrange(0, n as int) =~= self.g_bold.0@);
            assert(self.h_bold.0@.subrange(0, n as int) =~= self.h_bold.0@);
            assert(witness.a.0@.subrange(0, n as int) =~= witness.a.0@);
            assert(witness.b.0@.subrange(0, n as int) =~= witness.b.0@);
        }
        prove_rounds(
            &self.g,
            &self.h,
            points_range(&self.g_bold.0, 0, n),
            points_range(&self.h_bold.0, 0, n),
            scalars_range(&witness.a.0, 0, n),
            scalars_range(&witness.b.0, 0, n),
            witness.alpha,
            y,
            transcript,
            entropy,
            0,
        )
    }

    /// Whether a proof shows the statement, under the weight `y`.
    pub fn verify(&self, proof: &WipProof, y: &Scalar) -> (r: bool)
        requires
            self.g_bold@.len() == self.h_bold@.len(),
        ensures
            r == self.accepts(proof@, y@),
    {
        let mut transcript = *y;
        absorb(&mut transcript, &self.p, &self.g);
        let n = self.g_bold.0.len();
        proof {
            assert(self.g_bold.0@.subrange(0, n as int) =~= self.g_bold.0@);
            assert(self.h_bold.0@.subrange(0, n as int) =~= self.h_bold.0@);
        }
        verify_rounds(
            &self.g,
            &self.h,
            points_range(&self.g_bold.0, 0, n),
            points_range(&self.h_bold.0, 0, n),
            self.p,
            y,
            transcript,
            proof,
            0,
        )
    }
}


/// The number of halvings that take a length to one.
pub open spec fn rounds(n: nat) -> nat
    decreases n,
{
    if n <= 1 {
        0
    } else {
        1 + rounds(n / 2)
    }
}

/// A proof that the prover makes holds one pair of cross-terms for each
/// halving of the length.
pub proof fn lemma_proof_rounds(
    g: Jacobian,
    h: Jacobian,
    g_bold: Seq<Jacobian>,
    h_bold: Seq<Jacobian>,
    a: Seq<nat>,
    b: Seq<nat>,
    alpha: nat,
    y: nat,
    transcript: nat,
    entropy: Seq<[u8; 128]>,
    used: nat,
)
    requires
        prove_model(g, h, g_bold, h_bold, a, b, alpha, y, transcript, entropy, used) is Some,
    ensures
        prove_model(g, h, g_bold, h_bold, a, b, alpha, y, transcript, entropy, used)->Some_0.l.len() == rounds(
            a.len(),
        ),
        prove_model(g, h, g_bold, h_bold, a, b, alpha, y, transcript, entropy, used)->Some_0.r.len() == rounds(
            a.len(),
        ),
        used + 2 * rounds(a.len()) + 4 <= entropy.len(),
    decreases a.len(),
{
    let n = a.len();
    let m = n / 2;
    if n >= 2 {
        let dl = blind_model(entropy, used);
        let dr = blind_model(entropy, used + 1);
        let big_l = left_model(g, h, g_bold, h_bold, a, b, y, dl);
        let big_r = right_model(g, h, g_bold, h_bold, a, b, y, dr);
        let e = absorb_model(transcript, big_l, big_r);
        let folded = fold_generators_model(g_bold, h_bold, y, e);
        let next = fold_witness_model(a, b, y, e);
        let next_alpha = sadd(sadd(smul(dl, smul(e, e)), alpha), smul(dr, smul(sinv(e), sinv(e))));
        assert(next.0.len() == m);
        lemma_proof_rounds(g, h, folded.0, folded.1, next.0, next.1, next_alpha, y, e, entropy, used + 2);
    }
}

/// A proof that the verifier accepts from round `round` on holds, from
/// there on, one pair of cross-terms for each halving of the length.
pub proof fn lemma_accepted_rounds(
    g: Jacobian,
    h: Jacobian,
    g_bold: Seq<Jacobian>,
    h_bold: Seq<Jacobian>,
    p: Jacobian,
    y: nat,
    transcript: nat,
    proof: WipProofModel,
    round: nat,
)
    requires
        verify_model(g, h, g_bold, h_bold, p, y, transcript, proof, round),
    ensures
        proof.l.len() == round + rounds(g_bold.len()),
        proof.r.len() == round + rounds(g_bold.len()),
    decreases g_bold.len(),
{
    let n = g_bold.len();
    let m = n / 2;
    if n >= 2 {
        let big_l = proof.l[round as int];
        let big_r = proof.r[round as int];
        let e = absorb_model(transcript, big_l, big_r);
        let folded = fold_generators_model(g_bold, h_bold, y, e);
        let next_p = add_model(
            add_model(mul_model(big_l, smul(e, e)), p),
            mul_model(big_r, smul(sinv(e), sinv(e))),
        );
        assert(folded.0.len() == m);
        lemma_accepted_rounds(g, h, folded.0, folded.1, next_p, y, e, proof, round + 1);
    }
}

} // verus!
