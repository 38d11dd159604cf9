//! What is handed to the proof system: the statement and witness of a
//! circuit, and for each vector commitment the commitment, its blind, and
//! the two statements that it is well-formed.
//!
//! A vector commitment to values `s_i` under generators `G_i` and a blind
//! is `blind H + sum s_i G_i`. It is shown well-formed by two
//! weighted-inner-product proofs over two sets of further generators:
//! [`crate::wip`] makes and checks one such proof, [`crate::pair`] the
//! pairs. The proof of the circuit's own statement is not part of this
//! crate.

use vstd::prelude::*;
use crate::circuit::{Circuit, CircuitModel};
use crate::compile::{
    openings_model, ArithmeticCircuitStatement, ArithmeticCircuitWitness, Compiled, FaultyConstraint,
    Opening,
};
use crate::point::{add_model, identity_model, mul_model, neg_model, same_point, Jacobian, Point};
use crate::scalar::Scalar;
use crate::vector::{
    coordinates, multiexp_model, sadd, sum_model, values, weighted_inner_product_model, PointVector,
    ScalarVector,
};

verus! {

/// The statement of a weighted-inner-product proof: knowledge of `a`, `b`
/// and `alpha` with `P = <a, b>_y g + alpha h + sum a_i G_i + sum b_i H_i`.
pub struct WipStatement {
    pub g: Point,
    pub h: Point,
    pub g_bold: PointVector,
    pub h_bold: PointVector,
    pub p: Point,
}

/// The witness of a weighted-inner-product proof.
pub struct WipWitness {
    pub a: ScalarVector,
    pub b: ScalarVector,
    pub alpha: Scalar,
}

/// The point that a witness opens a statement to:
/// `<a, b>_y g + alpha h + sum a_i G_i + sum b_i H_i`.
pub open spec fn wip_commitment_model(
    g: Jacobian,
    h: Jacobian,
    g_bold: Seq<Jacobian>,
    h_bold: Seq<Jacobian>,
    a: Seq<nat>,
    b: Seq<nat>,
    alpha: nat,
    y: nat,
) -> Jacobian {
    add_model(
        add_model(
            add_model(mul_model(g, weighted_inner_product_model(a, b, y, a.len())), mul_model(h, alpha)),
            multiexp_model(a, g_bold, a.len()),
        ),
        multiexp_model(b, h_bold, b.len()),
    )
}

impl WipStatement {
    /// Whether a witness opens the statement under the weight `y`.
    pub fn opened_by(&self, witness: &WipWitness, y: &Scalar) -> (r: bool)
        requires
            witness.a@.len() == witness.b@.len(),
            witness.a@.len() == self.g_bold@.len(),
            witness.b@.len() == self.h_bold@.len(),
        ensures
            r == same_point(
                wip_commitment_model(
                    self.g@,
                    self.h@,
                    self.g_bold@,
                    self.h_bold@,
                    witness.a@,
                    witness.b@,
                    witness.alpha@,
                    y@,
                ),
                self.p@,
            ),
    {
        let weighted = witness.a.weighted_inner_product(&witness.b, y);
        let opened = self.g.mul(&weighted).add(&self.h.mul(&witness.alpha)).add(
            &self.g_bold.multiexp(&witness.a),
        ).add(&self.h_bold.multiexp(&witness.b));
        opened.ct_eq(&self.p)
    }
}

/// The commitment to the first `n` of a list of openings under a blind:
/// `blind h + sum value_i generator_i`, added from the left.
pub open spec fn commit_model(h: Jacobian, blind: nat, openings: Seq<(Option<nat>, Jacobian)>, n: nat) -> Jacobian
    decreases n,
{
    if n == 0 {
        mul_model(h, blind)
    } else {
        add_model(commit_model(h, blind, openings, (n - 1) as nat), mul_model(openings[n - 1].1, openings[n - 1].0->Some_0))
    }
}

/// Whether every opening of a list has a value.
pub open spec fn all_valued(openings: Seq<(Option<nat>, Jacobian)>) -> bool {
    forall|i: int| 0 <= i < openings.len() ==> (#[trigger] openings[i]).0 is Some
}

/// What shows a vector commitment well-formed: the commitment, the
/// witness that opens it, and the two statements to prove.
pub struct WellFormed {
    pub commitment: Point,
    pub witness: WipWitness,
    pub first: WipStatement,
    pub second: WipStatement,
}

/// The statement that a commitment is to values under the given
/// generators: a weighted-inner-product statement over those generators
/// and as many of the further generators `hs`.
pub fn vector_commitment_statement(g: Point, hs: &Vec<Point>, generators: Vec<Point>, h: Point, commitment: Point) -> (r:
    WipStatement)
    requires
        generators@.len() <= hs@.len(),
    ensures
        r.g == g,
        r.h == h,
        r.p == commitment,
        r.g_bold.0@ == generators@,
        r.h_bold.0@ == hs@.take(generators@.len() as int),
{
    let mut h_bold: Vec<Point> = Vec::new();
    let mut i: usize = 0;
    while i < generators.len()
        invariant
            i <= generators.len() <= hs.len(),
            h_bold@ == hs@.take(i as int),
        decreases generators.len() - i,
    {
        h_bold.push(hs[i]);
        assert(hs@.take(i as int + 1) =~= hs@.take(i as int).push(hs@[i as int]));
        i += 1;
    }
    WipStatement { g, h, g_bold: PointVector(generators), h_bold: PointVector(h_bold), p: commitment }
}

/// Commits to the values of a list of openings under a blind, and states
/// twice, over two sets of further generators, that the commitment is
/// well-formed. The witness has the values for `a`, zeros for `b`, and the
/// blind.
pub fn well_formed(
    additional_gs: (Point, Point),
    first_hs: &Vec<Point>,
    second_hs: &Vec<Point>,
    openings: &Vec<Opening>,
    blind: Scalar,
    h: Point,
) -> (r: WellFormed)
    requires
        all_valued(openings_model(openings@)),
        openings@.len() <= first_hs@.len(),
        openings@.len() <= second_hs@.len(),
    ensures
        r.commitment@ == commit_model(h@, blind@, openings_model(openings@), openings@.len()),
        r.witness.a@ == Seq::new(openings@.len(), |i: int| openings_model(openings@)[i].0->Some_0),
        r.witness.b@ == Seq::new(openings@.len(), |i: int| 0nat),
        r.witness.alpha == blind,
        r.first.g == additional_gs.0 && r.second.g == additional_gs.1,
        r.first.h == h && r.second.h == h,
        r.first.p == r.commitment && r.second.p == r.commitment,
        r.first.g_bold@ == Seq::new(openings@.len(), |i: int| openings_model(openings@)[i].1),
        r.second.g_bold@ == r.first.g_bold@,
        r.first.h_bold.0@ == first_hs@.take(openings@.len() as int),
        r.second.h_bold.0@ == second_hs@.take(openings@.len() as int),
{
    let ghost model = openings_model(openings@);
    let mut commitment = h.mul(&blind);
    let mut scalars: Vec<Scalar> = Vec::new();
    let mut generators: Vec<Point> = Vec::new();
    let mut again: Vec<Point> = Vec::new();
    let mut i: usize = 0;
    while i < openings.len()
        invariant
            i <= openings.len(),
            model == openings_model(openings@),
            all_valued(model),
            commitment@ == commit_model(h@, blind@, model, i as nat),
            scalars.len() == i,
            generators.len() == i,
            again@ == generators@,
            forall|k: int| 0 <= k < i ==> (#[trigger] scalars@[k])@ == model[k].0->Some_0,
            forall|k: int| 0 <= k < i ==> (#[trigger] generators@[k])@ == model[k].1,
        decreases openings.len() - i,
    {
        assert(model[i as int].0 is Some);
        let value = match openings[i].value {
            Some(v) => v,
            None => Scalar::zero(),
        };
        commitment = commitment.add(&openings[i].generator.mul(&value));
        scalars.push(value);
        generators.push(openings[i].generator);
        again.push(openings[i].generator);
        i += 1;
    }
    let b = ScalarVector::new(scalars.len());
    let a = ScalarVector(scalars);
    let first = vector_commitment_statement(additional_gs.0, first_hs, generators, h, commitment);
    let second = vector_commitment_statement(additional_gs.1, second_hs, again, h, commitment);
    proof {
        assert(a@ =~= Seq::new(openings@.len(), |i: int| model[i].0->Some_0));
        assert(first.g_bold@ =~= Seq::new(openings@.len(), |i: int| model[i].1));
        assert(second.g_bold@ =~= first.g_bold@);
    }
    WellFormed { commitment, witness: WipWitness { a, b, alpha: blind }, first, second }
}

/// The generators of a list of openings.
pub open spec fn generators_model(openings: Seq<(Option<nat>, Jacobian)>) -> Seq<Jacobian> {
    Seq::new(openings.len(), |i: int| openings[i].1)
}

/// Whether `shown` is what shows the commitment to a list of openings
/// under a blind well-formed: the commitment `blind h + sum s_i G_i`; the
/// witness with the values for `a`, zeros for `b` and the blind; and two
/// statements of that commitment over the openings' generators, the
/// first over `additional_gs.0` and the first further generators, the
/// second over `additional_gs.1` and the second.
pub open spec fn shows(
    shown: WellFormed,
    additional_gs: (Point, Point),
    first_hs: Seq<Point>,
    second_hs: Seq<Point>,
    openings: Seq<(Option<nat>, Jacobian)>,
    blind: nat,
    h: Jacobian,
) -> bool {
    &&& shown.commitment@ == commit_model(h, blind, openings, openings.len())
    &&& shown.witness.a@ == Seq::new(openings.len(), |i: int| openings[i].0->Some_0)
    &&& shown.witness.b@ == Seq::new(openings.len(), |i: int| 0nat)
    &&& shown.witness.alpha@ == blind
    &&& states(
        (shown.first, shown.second),
        additional_gs,
        first_hs,
        second_hs,
        generators_model(openings),
        h,
        shown.commitment@,
    )
}

/// Whether a pair of statements states that `p` is a commitment under
/// the given generators: both of `p`, under `h` and those generators,
/// the first over `additional_gs.0` and as many of the first further
/// generators, the second over `additional_gs.1` and as many of the
/// second.
pub open spec fn states(
    pair: (WipStatement, WipStatement),
    additional_gs: (Point, Point),
    first_hs: Seq<Point>,
    second_hs: Seq<Point>,
    generators: Seq<Jacobian>,
    h: Jacobian,
    p: Jacobian,
) -> bool {
    &&& pair.0.p@ == p
    &&& pair.1.p@ == p
    &&& pair.0.g == additional_gs.0
    &&& pair.1.g == additional_gs.1
    &&& pair.0.h@ == h
    &&& pair.1.h@ == h
    &&& pair.0.g_bold@ == generators
    &&& pair.1.g_bold@ == generators
    &&& pair.0.h_bold.0@ == first_hs.take(generators.len() as int)
    &&& pair.1.h_bold.0@ == second_hs.take(generators.len() as int)
}

/// The sum of the first `n` of a list of points, added from the left onto
/// the identity.
pub open spec fn points_sum_model(points: Seq<Jacobian>, n: nat) -> Jacobian
    decreases n,
{
    if n == 0 {
        identity_model()
    } else {
        add_model(points_sum_model(points, (n - 1) as nat), points[n - 1])
    }
}

fn points_sum(points: &Vec<Point>) -> (r: Point)
    ensures
        r@ == points_sum_model(coordinates(points@), points@.len()),
{
    let mut acc = Point::identity();
    let mut i: usize = 0;
    while i < points.len()
        invariant
            i <= points.len(),
            acc@ == points_sum_model(coordinates(points@), i as nat),
        decreases points.len() - i,
    {
        acc = acc.add(&points[i]);
        i += 1;
    }
    acc
}

/// What a prover with vector commitments hands to the proof system.
pub struct VectorCommitmentProving {
    /// The blind of each vector commitment.
    pub blinds: Vec<Scalar>,
    /// Each vector commitment.
    pub vector_commitments: Vec<Point>,
    /// What shows each vector commitment well-formed, and last what shows
    /// the commitment to all other positions well-formed.
    pub well_formed: Vec<WellFormed>,
    /// The statement and the witness of the circuit.
    pub statement: ArithmeticCircuitStatement,
    pub witness: ArithmeticCircuitWitness,
    /// The blind of the main proof: the sum of all blinds.
    pub total_blind: Scalar,
    /// The commitment that the main proof must open with: the sum of all
    /// commitments.
    pub expected_a: Point,
}

/// What a verifier with vector commitments hands to the proof system.
pub struct VectorCommitmentVerifying {
    /// The pair of statements for each vector commitment, and last for
    /// the commitment to all other positions, each pair over the same
    /// generators and commitment.
    pub statements: Vec<(WipStatement, WipStatement)>,
    /// The statement of the circuit.
    pub statement: ArithmeticCircuitStatement,
}

fn generators_of(openings: &Vec<Opening>) -> (r: Vec<Point>)
    ensures
        r@.len() == openings@.len(),
        coordinates(r@) == Seq::new(openings@.len(), |i: int| openings_model(openings@)[i].1),
{
    let mut out: Vec<Point> = Vec::new();
    let mut i: usize = 0;
    while i < openings.len()
        invariant
            i <= openings.len(),
            out.len() == i,
            forall|k: int| 0 <= k < i ==> (#[trigger] out@[k])@ == openings@[k].generator@,
        decreases openings.len() - i,
    {
        out.push(openings[i].generator);
        i += 1;
    }
    assert(coordinates(out@) =~= Seq::new(openings@.len(), |i: int| openings_model(openings@)[i].1));
    out
}

impl CircuitModel {
    /// The blind of a vector commitment: the one it was finalized under,
    /// and the fresh one if it was not finalized.
    pub open spec fn blind_of(self, vc: int, fresh: nat) -> nat {
        match self.finalized[vc] {
            Some(Some(blind)) => blind,
            _ => fresh,
        }
    }
}

impl Circuit {
    /// The statement and the witness of a prover's circuit that has no
    /// vector commitments, or the constraint that the witness fails.
    pub fn prove(self) -> (r: Result<(ArithmeticCircuitStatement, ArithmeticCircuitWitness), FaultyConstraint>)
        requires
            self.well_formed(),
            self@.generators_suffice(),
            self@.prover,
            self@.bound.len() == 0,
        ensures
            r is Err <==> self@.fault() is Some,
            r is Err ==> r->Err_0.label@ == self@.constraints[self@.fault()->Some_0].label,
            r is Ok ==> self@.compiles_to(r->Ok_0.0) && self@.witnessed_by(r->Ok_0.1),
    {
        match self.compile() {
            Err(e) => Err(e),
            Ok(compiled) => {
                let Compiled { statement, vector_commitments: _, others: _, witness } = compiled;
                match witness {
                    Some(w) => Ok((statement, w)),
                    None => {
                        // A prover's circuit compiles with its witness.
                        proof {
                            assert(false);
                        }
                        Err(FaultyConstraint { label: "" })
                    },
                }
            },
        }
    }

    /// The statement of a verifier's circuit that has no vector
    /// commitments, or the constraint that weighs a variable which no
    /// product uses.
    pub fn verify(self) -> (r: Result<ArithmeticCircuitStatement, FaultyConstraint>)
        requires
            self.well_formed(),
            self@.generators_suffice(),
            !self@.prover,
            self@.bound.len() == 0,
            self@.vector_commitments->Some_0.len() == 0,
        ensures
            r is Err <==> self@.fault() is Some,
            r is Err ==> r->Err_0.label@ == self@.constraints[self@.fault()->Some_0].label,
            r is Ok ==> self@.compiles_to(r->Ok_0),
    {
        match self.compile() {
            Ok(compiled) => Ok(compiled.statement),
            Err(e) => Err(e),
        }
    }
}


/// In a prover's circuit, every opening of a vector commitment has a
/// value.
pub proof fn lemma_bucket_valued(
    m: CircuitModel,
    gens: crate::compile::Generators,
    list: Seq<(crate::circuit::ProductReference, Option<Jacobian>)>,
    n: nat,
)
    requires
        m.prover,
        n <= list.len(),
    ensures
        all_valued(m.bucket_openings(gens, list, n)),
        m.bucket_openings(gens, list, n).len() == n,
    decreases n,
{
    if n > 0 {
        lemma_bucket_valued(m, gens, list, (n - 1) as nat);
    }
}

/// In a prover's circuit, every opening that no vector commitment binds
/// has a value, and there are at most as many for a role as there are
/// products.
pub proof fn lemma_role_valued(m: CircuitModel, gens: crate::compile::Generators, role: nat, n: nat)
    requires
        m.prover,
    ensures
        all_valued(m.role_others(gens, role, n)),
        m.role_others(gens, role, n).len() <= n,
    decreases n,
{
    if n > 0 {
        lemma_role_valued(m, gens, role, (n - 1) as nat);
    }
}

/// An unbound position has a value for the prover only: the verifier's
/// list is as long.
pub proof fn lemma_role_length(m: CircuitModel, gens: crate::compile::Generators, role: nat, n: nat)
    ensures
        m.role_others(gens, role, n).len() <= n,
    decreases n,
{
    if n > 0 {
        lemma_role_length(m, gens, role, (n - 1) as nat);
    }
}

/// The openings of a vector commitment are as many as its bindings.
pub proof fn lemma_bucket_length(
    m: CircuitModel,
    gens: crate::compile::Generators,
    list: Seq<(crate::circuit::ProductReference, Option<Jacobian>)>,
    n: nat,
)
    requires
        n <= list.len(),
    ensures
        m.bucket_openings(gens, list, n).len() == n,
    decreases n,
{
    if n > 0 {
        lemma_bucket_length(m, gens, list, (n - 1) as nat);
    }
}

impl CircuitModel {
    /// Whether two sets of further generators are long enough for every
    /// vector commitment and for the commitment to all other positions.
    pub open spec fn further_generators_suffice(self, first: nat, second: nat) -> bool {
        &&& 3 * self.products.len() <= first
        &&& 3 * self.products.len() <= second
        &&& forall|vc: int|
            0 <= vc < self.bound.len() ==> (#[trigger] self.bound[vc]).len() <= first && self.bound[vc].len()
                <= second
    }
}

impl Circuit {
    /// The number of vector commitments that were allocated.
    pub fn vector_commitments(&self) -> (r: usize)
        ensures
            r == self@.bound.len(),
    {
        proof {
            self.view_facts();
        }
        self.bound_products.len()
    }

    /// Whether the circuit's own generators are enough for its products,
    /// and further generators of the two given numbers are enough for
    /// every vector commitment and for the commitment to all other
    /// positions.
    pub fn generators_suffice_with(&self, first: usize, second: usize) -> (r: bool)
        ensures
            r == (self@.generators_suffice() && self@.further_generators_suffice(first as nat, second as nat)),
    {
        proof {
            self.view_facts();
        }
        let products = self.products.len();
        if products > self.g_bold1.len() || products > self.g_bold2.len() || products > self.h_bold1.len() {
            return false;
        }
        if products > first / 3 || products > second / 3 {
            return false;
        }
        let mut vc: usize = 0;
        while vc < self.bound_products.len()
            invariant
                vc <= self.bound_products.len(),
                self@.bound == Seq::new(
                    self.bound_products@.len(),
                    |i: int| crate::circuit::bindings_model(self.bound_products@[i]@),
                ),
                forall|k: int|
                    0 <= k < vc ==> (#[trigger] self@.bound[k]).len() <= first && self@.bound[k].len() <= second,
            decreases self.bound_products.len() - vc,
        {
            let bound = self.bound_products[vc].len();
            proof {
                assert(self@.bound[vc as int].len() == bound);
            }
            if bound > first || bound > second {
                return false;
            }
            vc += 1;
        }
        true
    }
}

impl Circuit {
    /// What a prover with vector commitments hands to the proof system, or
    /// the constraint that the witness fails.
    ///
    /// Each vector commitment is committed to under the blind it was
    /// finalized with, or under its fresh blind if it was not finalized;
    /// all other positions are committed to under `other_blind`. The main
    /// proof is blinded by the sum of all these blinds, so that the
    /// commitment it opens with is the sum of all these commitments.
    pub fn prove_with_vector_commitments(
        self,
        additional_gs: (Point, Point),
        first_hs: &Vec<Point>,
        second_hs: &Vec<Point>,
        fresh_blinds: &Vec<Scalar>,
        other_blind: Scalar,
    ) -> (r: Result<VectorCommitmentProving, FaultyConstraint>)
        requires
            self.well_formed(),
            self@.generators_suffice(),
            self@.prover,
            self@.bound.len() >= 1,
            fresh_blinds@.len() == self@.bound.len(),
            self@.further_generators_suffice(first_hs@.len(), second_hs@.len()),
        ensures
            r is Err <==> self@.fault() is Some,
            r is Err ==> r->Err_0.label@ == self@.constraints[self@.fault()->Some_0].label,
            r is Ok ==> ({
                let out = r->Ok_0;
                let openings = self@.vector_commitment_openings();
                let others = self@.others(self@.final_generators());
                &&& out.blinds@.len() == self@.bound.len()
                &&& out.vector_commitments@.len() == self@.bound.len()
                &&& out.well_formed@.len() == self@.bound.len() + 1
                &&& forall|vc: int|
                    0 <= vc < self@.bound.len() ==> (#[trigger] out.blinds@[vc])@ == self@.blind_of(
                        vc,
                        fresh_blinds@[vc]@,
                    )
                &&& forall|vc: int|
                    0 <= vc < self@.bound.len() ==> (#[trigger] out.vector_commitments@[vc])@ == commit_model(
                        self@.h,
                        out.blinds@[vc]@,
                        openings[vc],
                        openings[vc].len(),
                    )
                &&& forall|vc: int|
                    0 <= vc < self@.bound.len() ==> (#[trigger] out.well_formed@[vc]).commitment
                        == out.vector_commitments@[vc]
                &&& forall|vc: int|
                    0 <= vc < self@.bound.len() ==> shows(
                        #[trigger] out.well_formed@[vc],
                        additional_gs,
                        first_hs@,
                        second_hs@,
                        openings[vc],
                        out.blinds@[vc]@,
                        self@.h,
                    )
                &&& shows(
                    out.well_formed@[self@.bound.len() as int],
                    additional_gs,
                    first_hs@,
                    second_hs@,
                    others,
                    other_blind@,
                    self@.h,
                )
                &&& out.total_blind@ == sadd(sum_model(values(out.blinds@), out.blinds@.len()), other_blind@)
                &&& out.expected_a@ == add_model(
                    points_sum_model(coordinates(out.vector_commitments@), out.vector_commitments@.len()),
                    out.well_formed@[self@.bound.len() as int].commitment@,
                )
                &&& self@.compiles_to(out.statement)
                &&& self@.witnessed_by(out.witness)
            }),
    {
        proof {
            self.view_facts();
        }
        let ghost m = self@;
        let mut blinds: Vec<Scalar> = Vec::new();
        let mut vc: usize = 0;
        while vc < self.finalized_commitments.len()
            invariant
                vc <= self.finalized_commitments.len(),
                self@ == m,
                m.well_formed(),
                m.finalized.len() == self.finalized_commitments@.len(),
                m.bound.len() == m.finalized.len(),
                fresh_blinds@.len() == m.bound.len(),
                blinds.len() == vc,
                forall|k: int| 0 <= k < vc ==> (#[trigger] blinds@[k])@ == m.blind_of(k, fresh_blinds@[k]@),
            decreases self.finalized_commitments.len() - vc,
        {
            proof {
                self.finalized_view(vc);
            }
            let blind = match self.finalized_commitments[vc] {
                Some(Some(blind)) => blind,
                _ => fresh_blinds[vc],
            };
            blinds.push(blind);
            vc += 1;
        }
        let compiled = match self.compile() {
            Err(e) => {
                return Err(e);
            },
            Ok(compiled) => compiled,
        };
        let Compiled { statement, vector_commitments: openings, others, witness } = compiled;
        let witness = match witness {
            Some(w) => w,
            None => {
                // A prover's circuit compiles with its witness.
                proof {
                    assert(false);
                }
                return Err(FaultyConstraint { label: "" });
            },
        };
        let ghost lists = m.vector_commitment_openings();
        let ghost rest = m.others(m.final_generators());
        proof {
            assert(crate::compile::opening_lists_model(openings@).len() == openings@.len());
            assert(lists.len() == m.bound.len());
            assert(openings_model(others@).len() == others@.len());
        }
        let mut commitments: Vec<Point> = Vec::new();
        let mut proofs: Vec<WellFormed> = Vec::new();
        let mut k: usize = 0;
        while k < openings.len()
            invariant
                k <= openings.len(),
                m.prover,
                openings@.len() == m.bound.len(),
                blinds@.len() == m.bound.len(),
                crate::compile::opening_lists_model(openings@) == lists,
                lists == m.vector_commitment_openings(),
                m.further_generators_suffice(first_hs@.len(), second_hs@.len()),
                statement.h@ == m.h,
                commitments.len() == k,
                proofs.len() == k,
                forall|j: int|
                    0 <= j < k ==> (#[trigger] commitments@[j])@ == commit_model(
                        m.h,
                        blinds@[j]@,
                        lists[j],
                        lists[j].len(),
                    ),
                forall|j: int| 0 <= j < k ==> (#[trigger] proofs@[j]).commitment == commitments@[j],
                forall|j: int|
                    0 <= j < k ==> shows(
                        #[trigger] proofs@[j],
                        additional_gs,
                        first_hs@,
                        second_hs@,
                        lists[j],
                        blinds@[j]@,
                        m.h,
                    ),
            decreases openings.len() - k,
        {
            proof {
                assert(lists[k as int] == openings_model(openings@[k as int]@));
                lemma_bucket_valued(
                    m,
                    m.generators().bind_all(m.bound, k as nat),
                    m.bound[k as int],
                    m.bound[k as int].len(),
                );
                assert(m.bound[k as int].len() <= first_hs@.len());
                assert(openings_model(openings@[k as int]@).len() == openings@[k as int]@.len());
            }
            let shown = well_formed(additional_gs, first_hs, second_hs, &openings[k], blinds[k], statement.h);
            commitments.push(shown.commitment);
            proofs.push(shown);
            k += 1;
        }
        proof {
            lemma_role_valued(m, m.final_generators(), 0, m.products.len());
            lemma_role_valued(m, m.final_generators(), 1, m.products.len());
            lemma_role_valued(m, m.final_generators(), 2, m.products.len());
            assert(all_valued(rest));
        }
        let shown = well_formed(additional_gs, first_hs, second_hs, &others, other_blind, statement.h);
        let expected_a = points_sum(&commitments).add(&shown.commitment);
        proofs.push(shown);
        let total_blind = sum_scalars(&blinds).add(&other_blind);
        Ok(
            VectorCommitmentProving {
                blinds,
                vector_commitments: commitments,
                well_formed: proofs,
                statement,
                witness,
                total_blind,
                expected_a,
            },
        )
    }

    /// What a verifier with vector commitments hands to the proof system:
    /// for each vector commitment the pair of statements that it is
    /// well-formed, and last the pair for the commitment to all other
    /// positions, which is the main proof's commitment `a` less the sum of
    /// the vector commitments.
    pub fn verify_with_vector_commitments(
        self,
        additional_gs: (Point, Point),
        first_hs: &Vec<Point>,
        second_hs: &Vec<Point>,
        a: &Point,
    ) -> (r: Result<VectorCommitmentVerifying, FaultyConstraint>)
        requires
            self.well_formed(),
            self@.generators_suffice(),
            !self@.prover,
            self@.vector_commitments->Some_0.len() == self@.bound.len(),
            self@.further_generators_suffice(first_hs@.len(), second_hs@.len()),
        ensures
            r is Err <==> self@.fault() is Some,
            r is Err ==> r->Err_0.label@ == self@.constraints[self@.fault()->Some_0].label,
            r is Ok ==> ({
                let out = r->Ok_0;
                &&& out.statements@.len() == self@.bound.len() + 1
                &&& forall|vc: int|
                    0 <= vc < self@.bound.len() ==> states(
                        #[trigger] out.statements@[vc],
                        additional_gs,
                        first_hs@,
                        second_hs@,
                        generators_model(self@.vector_commitment_openings()[vc]),
                        self@.h,
                        self@.vector_commitments->Some_0[vc],
                    )
                &&& states(
                    out.statements@[self@.bound.len() as int],
                    additional_gs,
                    first_hs@,
                    second_hs@,
                    generators_model(self@.others(self@.final_generators())),
                    self@.h,
                    add_model(
                        a@,
                        neg_model(
                            points_sum_model(
                                self@.vector_commitments->Some_0,
                                self@.vector_commitments->Some_0.len(),
                            ),
                        ),
                    ),
                )
                &&& self@.compiles_to(out.statement)
            }),
    {
        proof {
            self.view_facts();
            self.vector_commitments_view();
        }
        let ghost m = self@;
        let given = match &self.vector_commitments {
            Some(v) => copy_points(v),
            None => Vec::new(),
        };
        let compiled = match self.compile() {
            Ok(compiled) => compiled,
            Err(e) => {
                return Err(e);
            },
        };
        let Compiled { statement, vector_commitments: openings, others, witness: _ } = compiled;
        let ghost lists = m.vector_commitment_openings();
        proof {
            assert(crate::compile::opening_lists_model(openings@).len() == openings@.len());
            assert(lists.len() == m.bound.len());
            assert(openings_model(others@).len() == others@.len());
        }
        let mut statements: Vec<(WipStatement, WipStatement)> = Vec::new();
        let mut k: usize = 0;
        while k < openings.len()
            invariant
                k <= openings.len(),
                openings@.len() == m.bound.len(),
                given@.len() == m.bound.len(),
                coordinates(given@) == m.vector_commitments->Some_0,
                crate::compile::opening_lists_model(openings@) == lists,
                lists == m.vector_commitment_openings(),
                m.further_generators_suffice(first_hs@.len(), second_hs@.len()),
                statement.h@ == m.h,
                statements.len() == k,
                forall|vc: int|
                    0 <= vc < k ==> states(
                        #[trigger] statements@[vc],
                        additional_gs,
                        first_hs@,
                        second_hs@,
                        generators_model(lists[vc]),
                        m.h,
                        m.vector_commitments->Some_0[vc],
                    ),
            decreases openings.len() - k,
        {
            proof {
                assert(lists[k as int] == openings_model(openings@[k as int]@));
                lemma_bucket_length(
                    m,
                    m.generators().bind_all(m.bound, k as nat),
                    m.bound[k as int],
                    m.bound[k as int].len(),
                );
                assert(m.bound[k as int].len() <= first_hs@.len());
                assert(coordinates(given@)[k as int] == given@[k as int]@);
                assert(openings_model(openings@[k as int]@).len() == openings@[k as int]@.len());
            }
            let first = vector_commitment_statement(
                additional_gs.0,
                first_hs,
                generators_of(&openings[k]),
                statement.h,
                given[k],
            );
            let second = vector_commitment_statement(
                additional_gs.1,
                second_hs,
                generators_of(&openings[k]),
                statement.h,
                given[k],
            );
            statements.push((first, second));
            k += 1;
        }
        proof {
            lemma_role_length(m, m.final_generators(), 0, m.products.len());
            lemma_role_length(m, m.final_generators(), 1, m.products.len());
            lemma_role_length(m, m.final_generators(), 2, m.products.len());
        }
        let rest = a.sub(&points_sum(&given));
        let first = vector_commitment_statement(additional_gs.0, first_hs, generators_of(&others), statement.h, rest);
        let second = vector_commitment_statement(additional_gs.1, second_hs, generators_of(&others), statement.h, rest);
        statements.push((first, second));
        Ok(VectorCommitmentVerifying { statements, statement })
    }
}

fn sum_scalars(list: &Vec<Scalar>) -> (r: Scalar)
    ensures
        r@ == sum_model(values(list@), list@.len()),
{
    let mut acc = Scalar::zero();
    let mut i: usize = 0;
    while i < list.len()
        invariant
            i <= list.len(),
            acc@ == sum_model(values(list@), i as nat),
        decreases list.len() - i,
    {
        acc = acc.add(&list[i]);
        i += 1;
    }
    acc
}

fn copy_points(points: &Vec<Point>) -> (r: Vec<Point>)
    ensures
        r@ == points@,
{
    let mut r: Vec<Point> = Vec::new();
    let mut i: usize = 0;
    while i < points.len()
        invariant
            i <= points.len(),
            r@ == points@.take(i as int),
        decreases points.len() - i,
    {
        r.push(points[i]);
        assert(points@.take(i as int + 1) =~= points@.take(i as int).push(points@[i as int]));
        i += 1;
    }
    assert(points@.take(points.len() as int) =~= points@);
    r
}

} // verus!
