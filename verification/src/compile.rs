//! Compilation of a circuit into the statement that is proved: the four
//! weight matrices, the constants, the committed points, and the
//! generators with the overrides of the vector commitments applied.

use vstd::prelude::*;
use crate::circuit::{
    bindings_model, committed_count, optional_point, optional_value, row_below, weights_model,
    Circuit, CircuitModel, ConstraintModel, ProductReference, Variable, VariableModel,
};
use crate::point::{Jacobian, Point};
use crate::scalar::Scalar;
use crate::vector::{coordinates, sadd, smul, ssub, values, PointVector, ScalarMatrix, ScalarVector};

verus! {

/// What is proved of a circuit.
pub struct ArithmeticCircuitStatement {
    pub g: Point,
    pub h: Point,
    pub g_bold1: PointVector,
    pub g_bold2: PointVector,
    pub h_bold1: PointVector,
    pub h_bold2: PointVector,
    pub v: PointVector,
    pub wl: ScalarMatrix,
    pub wr: ScalarMatrix,
    pub wo: ScalarMatrix,
    pub wv: ScalarMatrix,
    pub c: ScalarVector,
}

/// What the prover knows of a circuit: the left and right inputs of the
/// products, and the openings of the committed inputs.
pub struct ArithmeticCircuitWitness {
    pub al: ScalarVector,
    pub ar: ScalarVector,
    pub v: ScalarVector,
    pub gamma: ScalarVector,
}

/// A position of the witness with the generator it is committed under,
/// and its value where the prover compiles.
#[derive(Clone, Copy, Debug)]
pub struct Opening {
    pub value: Option<Scalar>,
    pub generator: Point,
}

/// A compiled circuit.
pub struct Compiled {
    pub statement: ArithmeticCircuitStatement,
    pub vector_commitments: Vec<Vec<Opening>>,
    pub others: Vec<Opening>,
    pub witness: Option<ArithmeticCircuitWitness>,
}

/// The constraint for which a circuit does not compile: one that weighs a
/// variable which no product uses, or one that the prover's witness does
/// not satisfy.
#[derive(Clone, Copy, Debug)]
pub struct FaultyConstraint {
    pub label: &'static str,
}

/// A list of openings as values of contracts.
pub open spec fn openings_model(list: Seq<Opening>) -> Seq<(Option<nat>, Jacobian)> {
    Seq::new(list.len(), |i: int| (optional_value(list[i].value), list[i].generator@))
}

/// Lists of openings as values of contracts.
pub open spec fn opening_lists_model(lists: Seq<Vec<Opening>>) -> Seq<Seq<(Option<nat>, Jacobian)>> {
    Seq::new(lists.len(), |i: int| openings_model(lists[i]@))
}

/// The rows of a matrix as values of contracts.
pub open spec fn matrix_model(m: ScalarMatrix) -> Seq<Seq<(usize, nat)>> {
    Seq::new(m.rows_model().len(), |i: int| weights_model(m.rows_model()[i]@))
}

/// The points of the committed inputs among the first `n` variables.
pub open spec fn committed_points(variables: Seq<VariableModel>, n: nat) -> Seq<Jacobian>
    decreases n,
{
    if n == 0 {
        Seq::empty()
    } else {
        match variables[n - 1] {
            VariableModel::Committed(_, p) => committed_points(variables, (n - 1) as nat).push(p),
            _ => committed_points(variables, (n - 1) as nat),
        }
    }
}

/// The openings, as value and mask, of the committed inputs among the
/// first `n` variables of a prover's circuit.
pub open spec fn committed_openings(variables: Seq<VariableModel>, n: nat) -> Seq<(nat, nat)>
    decreases n,
{
    if n == 0 {
        Seq::empty()
    } else {
        match variables[n - 1] {
            VariableModel::Committed(c, _) => committed_openings(variables, (n - 1) as nat).push(c->Some_0),
            _ => committed_openings(variables, (n - 1) as nat),
        }
    }
}

/// A running sum after the first `n` weights of a row were applied to a
/// vector: `start + sum weight_i vector[index_i]`.
pub open spec fn add_row(start: nat, row: Seq<(usize, nat)>, vector: Seq<nat>, n: nat) -> nat
    decreases n,
{
    if n == 0 {
        start
    } else {
        sadd(add_row(start, row, vector, (n - 1) as nat), smul(row[n - 1].1, vector[row[n - 1].0 as int]))
    }
}

/// A running sum after the first `n` weights of a row, applied to a
/// vector, were taken off: `start - sum weight_i vector[index_i]`.
pub open spec fn sub_row(start: nat, row: Seq<(usize, nat)>, vector: Seq<nat>, n: nat) -> nat
    decreases n,
{
    if n == 0 {
        start
    } else {
        ssub(sub_row(start, row, vector, (n - 1) as nat), smul(row[n - 1].1, vector[row[n - 1].0 as int]))
    }
}

/// The left side of a constraint at a witness, less its committed part:
/// `WL aL + WR aR + WO aO - WV v`.
pub open spec fn constraint_eval(c: ConstraintModel, al: Seq<nat>, ar: Seq<nat>, v: Seq<nat>) -> nat {
    let ao = Seq::new(al.len(), |i: int| smul(al[i], ar[i]));
    let left = add_row(0, c.wl, al, c.wl.len());
    let right = add_row(left, c.wr, ar, c.wr.len());
    let out = add_row(right, c.wo, ao, c.wo.len());
    sub_row(out, c.wv, v, c.wv.len())
}

/// The three generator vectors that vector commitments override.
pub ghost struct Generators {
    pub g_bold1: Seq<Jacobian>,
    pub g_bold2: Seq<Jacobian>,
    pub h_bold1: Seq<Jacobian>,
}

impl Generators {
    /// The generator for a role of a product.
    pub open spec fn at(self, r: ProductReference) -> Jacobian {
        match r {
            ProductReference::Left { product, .. } => self.g_bold1[product as int],
            ProductReference::Right { product, .. } => self.h_bold1[product as int],
            ProductReference::Output { product, .. } => self.g_bold2[product as int],
        }
    }

    /// The generator that a binding commits under: its own if it has one,
    /// else the one in place.
    pub open spec fn chosen(self, binding: (ProductReference, Option<Jacobian>)) -> Jacobian {
        match binding.1 {
            Some(g) => g,
            None => self.at(binding.0),
        }
    }

    /// The generators after a binding's generator was put in the place of
    /// its role and product.
    pub open spec fn bind(self, binding: (ProductReference, Option<Jacobian>)) -> Generators {
        let g = self.chosen(binding);
        match binding.0 {
            ProductReference::Left { product, .. } => Generators {
                g_bold1: self.g_bold1.update(product as int, g),
                ..self
            },
            ProductReference::Right { product, .. } => Generators {
                h_bold1: self.h_bold1.update(product as int, g),
                ..self
            },
            ProductReference::Output { product, .. } => Generators {
                g_bold2: self.g_bold2.update(product as int, g),
                ..self
            },
        }
    }

    /// The generators after the first `n` bindings of a list.
    pub open spec fn bind_list(self, list: Seq<(ProductReference, Option<Jacobian>)>, n: nat) -> Generators
        decreases n,
    {
        if n == 0 {
            self
        } else {
            self.bind_list(list, (n - 1) as nat).bind(list[n - 1])
        }
    }

    /// The generators after the bindings of the first `n` vector
    /// commitments.
    pub open spec fn bind_all(self, bound: Seq<Seq<(ProductReference, Option<Jacobian>)>>, n: nat) -> Generators
        decreases n,
    {
        if n == 0 {
            self
        } else {
            self.bind_all(bound, (n - 1) as nat).bind_list(bound[n - 1], bound[n - 1].len())
        }
    }
}

impl CircuitModel {
    /// The values on the left of the products.
    pub open spec fn left_values(self) -> Seq<nat> {
        Seq::new(
            self.products.len(),
            |j: int| self.variables[self.products[j].left as int].value()->Some_0,
        )
    }

    /// The values on the right of the products.
    pub open spec fn right_values(self) -> Seq<nat> {
        Seq::new(
            self.products.len(),
            |j: int| self.variables[self.products[j].right as int].value()->Some_0,
        )
    }

    /// The values of the committed inputs.
    pub open spec fn committed_values(self) -> Seq<nat> {
        let openings = committed_openings(self.variables, self.variables.len());
        Seq::new(openings.len(), |i: int| openings[i].0)
    }

    /// The masks of the committed inputs.
    pub open spec fn committed_masks(self) -> Seq<nat> {
        let openings = committed_openings(self.variables, self.variables.len());
        Seq::new(openings.len(), |i: int| openings[i].1)
    }

    /// Whether the prover's witness satisfies a constraint.
    pub open spec fn satisfies(self, c: ConstraintModel) -> bool {
        constraint_eval(c, self.left_values(), self.right_values(), self.committed_values()) == c.c
    }

    /// The first of the first `n` constraints that the prover's witness
    /// does not satisfy, if there is one.
    pub open spec fn first_faulty(self, n: nat) -> Option<int>
        decreases n,
    {
        if n == 0 {
            None
        } else if self.first_faulty((n - 1) as nat) is Some {
            self.first_faulty((n - 1) as nat)
        } else if !self.satisfies(self.constraints[n - 1]) {
            Some(n - 1)
        } else {
            None
        }
    }

    /// The generators as the circuit was made with them.
    pub open spec fn generators(self) -> Generators {
        Generators { g_bold1: self.g_bold1, g_bold2: self.g_bold2, h_bold1: self.h_bold1 }
    }

    /// The value at a role of a product: none for a verifier.
    pub open spec fn role_value(self, r: ProductReference) -> Option<nat> {
        if self.prover {
            let p = r.product_model() as int;
            Some(
                match r {
                    ProductReference::Left { .. } => self.left_values()[p],
                    ProductReference::Right { .. } => self.right_values()[p],
                    ProductReference::Output { .. } => smul(self.left_values()[p], self.right_values()[p]),
                },
            )
        } else {
            None
        }
    }

    /// The openings of the first `n` bindings of a vector commitment, over
    /// the generators in place when its first binding is reached.
    pub open spec fn bucket_openings(self, gens: Generators, list: Seq<(ProductReference, Option<Jacobian>)>, n: nat) -> Seq<(Option<nat>, Jacobian)>
        decreases n,
    {
        if n == 0 {
            Seq::empty()
        } else {
            self.bucket_openings(gens, list, (n - 1) as nat).push(
                (self.role_value(list[n - 1].0), gens.bind_list(list, (n - 1) as nat).chosen(list[n - 1])),
            )
        }
    }

    /// Whether a role of a product is bound in any vector commitment.
    pub open spec fn role_bound(self, role: nat, product: int) -> bool {
        exists|vc: int, k: int|
            0 <= vc < self.bound.len() && 0 <= k < self.bound[vc].len() && (#[trigger] self.bound[vc][k]).0.role_model()
                == role && self.bound[vc][k].0.product_model() == product
    }

    /// The reference to a role of a product, whatever its variable.
    pub open spec fn role_reference(role: nat, product: int) -> ProductReference {
        if role == 0 {
            ProductReference::Left { product: product as usize, variable: 0 }
        } else if role == 1 {
            ProductReference::Right { product: product as usize, variable: 0 }
        } else {
            ProductReference::Output { product: product as usize, variable: 0 }
        }
    }

    /// The openings of the first `n` products in one role that no vector
    /// commitment binds, over the final generators.
    pub open spec fn role_others(self, gens: Generators, role: nat, n: nat) -> Seq<(Option<nat>, Jacobian)>
        decreases n,
    {
        if n == 0 {
            Seq::empty()
        } else if self.role_bound(role, n - 1) {
            self.role_others(gens, role, (n - 1) as nat)
        } else {
            let r = CircuitModel::role_reference(role, n - 1);
            self.role_others(gens, role, (n - 1) as nat).push((self.role_value(r), gens.at(r)))
        }
    }

    /// The openings that no vector commitment binds: the left of every
    /// product, then the right, then the output.
    pub open spec fn others(self, gens: Generators) -> Seq<(Option<nat>, Jacobian)> {
        self.role_others(gens, 0, self.products.len()) + self.role_others(gens, 1, self.products.len())
            + self.role_others(gens, 2, self.products.len())
    }
}


fn copy_row(row: &Vec<(usize, Scalar)>) -> (r: Vec<(usize, Scalar)>)
    ensures
        r@ == row@,
{
    let mut r: Vec<(usize, Scalar)> = Vec::new();
    let mut i: usize = 0;
    while i < row.len()
        invariant
            i <= row.len(),
            r@ == row@.take(i as int),
        decreases row.len() - i,
    {
        r.push(row[i]);
        assert(row@.take(i as int + 1) =~= row@.take(i as int).push(row@[i as int]));
        i += 1;
    }
    assert(row@.take(row.len() as int) =~= row@);
    r
}

fn add_weights(start: Scalar, row: &Vec<(usize, Scalar)>, vector: &Vec<Scalar>) -> (r: Scalar)
    requires
        row_below(weights_model(row@), vector@.len()),
    ensures
        r@ == add_row(start@, weights_model(row@), values(vector@), row@.len()),
{
    let mut acc = start;
    let mut i: usize = 0;
    while i < row.len()
        invariant
            i <= row.len(),
            row_below(weights_model(row@), vector@.len()),
            acc@ == add_row(start@, weights_model(row@), values(vector@), i as nat),
        decreases row.len() - i,
    {
        assert(weights_model(row@)[i as int].0 < vector@.len());
        acc = acc.add(&row[i].1.mul(&vector[row[i].0]));
        i += 1;
    }
    acc
}

fn sub_weights(start: Scalar, row: &Vec<(usize, Scalar)>, vector: &Vec<Scalar>) -> (r: Scalar)
    requires
        row_below(weights_model(row@), vector@.len()),
    ensures
        r@ == sub_row(start@, weights_model(row@), values(vector@), row@.len()),
{
    let mut acc = start;
    let mut i: usize = 0;
    while i < row.len()
        invariant
            i <= row.len(),
            row_below(weights_model(row@), vector@.len()),
            acc@ == sub_row(start@, weights_model(row@), values(vector@), i as nat),
        decreases row.len() - i,
    {
        assert(weights_model(row@)[i as int].0 < vector@.len());
        acc = acc.sub(&row[i].1.mul(&vector[row[i].0]));
        i += 1;
    }
    acc
}

/// The committed points are as many as the committed inputs.
pub proof fn lemma_committed_len(variables: Seq<VariableModel>, n: nat)
    ensures
        committed_points(variables, n).len() == committed_count(variables, n),
        committed_openings(variables, n).len() == committed_count(variables, n),
    decreases n,
{
    if n > 0 {
        lemma_committed_len(variables, (n - 1) as nat);
    }
}

/// A constraint found faulty among the first `n` is the first faulty one
/// among all.
pub proof fn lemma_first_faulty_extends(m: CircuitModel, n: nat, upto: nat)
    requires
        n <= upto,
        m.first_faulty(n) is Some,
    ensures
        m.first_faulty(upto) == m.first_faulty(n),
    decreases upto - n,
{
    if n < upto {
        lemma_first_faulty_extends(m, n, (upto - 1) as nat);
    }
}

/// Where no constraint among the first `n` is faulty, the witness
/// satisfies each of them.
pub proof fn lemma_all_satisfied(m: CircuitModel, n: nat, i: int)
    requires
        m.first_faulty(n) is None,
        0 <= i < n,
    ensures
        m.satisfies(m.constraints[i]),
    decreases n,
{
    if i < n - 1 {
        lemma_all_satisfied(m, (n - 1) as nat, i);
    }
}

impl Circuit {
    /// The values on the left and on the right of the products of a prover's
    /// circuit.
    fn gate_values(&self) -> (r: (Vec<Scalar>, Vec<Scalar>))
        requires
            self.well_formed(),
            self@.prover,
        ensures
            values(r.0@) == self@.left_values(),
            values(r.1@) == self@.right_values(),
    {
        proof {
            self.view_facts();
        }
        let mut al: Vec<Scalar> = Vec::new();
        let mut ar: Vec<Scalar> = Vec::new();
        let mut j: usize = 0;
        while j < self.products.len()
            invariant
                j <= self.products.len(),
                self@.well_formed(),
                self@.prover,
                self@.products == self.products@,
                self@.variables == Seq::new(self.variables@.len(), |i: int| self.variables@[i]@),
                al.len() == j,
                ar.len() == j,
                forall|k: int| 0 <= k < j ==> al@[k]@ == self@.left_values()[k] && ar@[k]@ == self@.right_values()[k],
            decreases self.products.len() - j,
        {
            let gate = self.products[j];
            proof {
                assert(self@.product_ok(j as int));
                assert(self@.variable_ok(gate.left as int));
                assert(self@.variable_ok(gate.right as int));
            }
            let left = match self.variables[gate.left].value() {
                Some(v) => v,
                None => Scalar::zero(),
            };
            let right = match self.variables[gate.right].value() {
                Some(v) => v,
                None => Scalar::zero(),
            };
            al.push(left);
            ar.push(right);
            j += 1;
        }
        proof {
            assert(values(al@) =~= self@.left_values());
            assert(values(ar@) =~= self@.right_values());
        }
        (al, ar)
    }

    /// The points of the committed inputs, and for a prover their values
    /// and masks.
    fn committed_inputs(&self) -> (r: (Vec<Point>, Vec<Scalar>, Vec<Scalar>))
        requires
            self.well_formed(),
        ensures
            coordinates(r.0@) == committed_points(self@.variables, self@.variables.len()),
            self@.prover ==> values(r.1@) == self@.committed_values() && values(r.2@) == self@.committed_masks(),
    {
        proof {
            self.view_facts();
        }
        let mut points: Vec<Point> = Vec::new();
        let mut vals: Vec<Scalar> = Vec::new();
        let mut masks: Vec<Scalar> = Vec::new();
        let mut i: usize = 0;
        proof {
            assert(coordinates(points@) =~= committed_points(self@.variables, 0));
        }
        while i < self.variables.len()
            invariant
                i <= self.variables.len(),
                self@.well_formed(),
                self@.variables == Seq::new(self.variables@.len(), |k: int| self.variables@[k]@),
                coordinates(points@) == committed_points(self@.variables, i as nat),
                self@.prover ==> vals.len() == committed_openings(self@.variables, i as nat).len() && masks.len()
                    == vals.len(),
                self@.prover ==> forall|k: int|
                    0 <= k < vals.len() ==> vals@[k]@ == committed_openings(self@.variables, i as nat)[k].0
                        && masks@[k]@ == committed_openings(self@.variables, i as nat)[k].1,
            decreases self.variables.len() - i,
        {
            let ghost before = points@;
            proof {
                assert(self@.variable_ok(i as int));
            }
            match self.variables[i] {
                Variable::Committed(commitment, actual) => {
                    points.push(actual);
                    assert(coordinates(points@) =~= coordinates(before).push(actual@));
                    match commitment {
                        Some(c) => {
                            vals.push(c.value);
                            masks.push(c.mask);
                        },
                        None => {},
                    }
                },
                _ => {},
            }
            i += 1;
        }
        proof {
            if self@.prover {
                assert(values(vals@) =~= self@.committed_values());
                assert(values(masks@) =~= self@.committed_masks());
            }
        }
        (points, vals, masks)
    }

    /// The first constraint that the witness does not satisfy, if any.
    fn find_faulty(&self, al: &Vec<Scalar>, ar: &Vec<Scalar>, v: &Vec<Scalar>) -> (r: Option<usize>)
        requires
            self.well_formed(),
            self@.prover,
            values(al@) == self@.left_values(),
            values(ar@) == self@.right_values(),
            values(v@) == self@.committed_values(),
        ensures
            match r {
                Some(i) => self@.first_faulty(self@.constraints.len()) == Some(i as int) && i
                    < self@.constraints.len(),
                None => self@.first_faulty(self@.constraints.len()) is None,
            },
    {
        proof {
            self.view_facts();
            lemma_committed_len(self@.variables, self@.variables.len());
        }
        let mut ao: Vec<Scalar> = Vec::new();
        let mut j: usize = 0;
        assert(al@.len() == values(al@).len());
        assert(ar@.len() == values(ar@).len());
        assert(v@.len() == values(v@).len());
        while j < al.len()
            invariant
                j <= al.len(),
                al.len() == ar.len(),
                ao.len() == j,
                forall|k: int| 0 <= k < j ==> ao@[k]@ == smul(al@[k]@, ar@[k]@),
            decreases al.len() - j,
        {
            ao.push(al[j].mul(&ar[j]));
            j += 1;
        }
        proof {
            assert(values(ao@) =~= Seq::new(values(al@).len(), |i: int| smul(values(al@)[i], values(ar@)[i])));
        }
        let mut i: usize = 0;
        while i < self.constraints.len()
            invariant
                i <= self.constraints.len(),
                self@.well_formed(),
                self@.constraints == Seq::new(self.constraints@.len(), |k: int| self.constraints@[k]@),
                values(al@) == self@.left_values(),
                values(ar@) == self@.right_values(),
                values(v@) == self@.committed_values(),
                al@.len() == self@.products.len(),
                ar@.len() == self@.products.len(),
                ao@.len() == self@.products.len(),
                v@.len() == self@.commitments(),
                values(ao@) == Seq::new(values(al@).len(), |i: int| smul(values(al@)[i], values(ar@)[i])),
                self@.first_faulty(i as nat) is None,
            decreases self.constraints.len() - i,
        {
            let constraint = &self.constraints[i];
            proof {
                constraint.view_facts();
                assert(self@.constraint_fits(self@.constraints[i as int]));
            }
            let left = add_weights(Scalar::zero(), &constraint.wl, al);
            let right = add_weights(left, &constraint.wr, ar);
            let out = add_weights(right, &constraint.wo, &ao);
            let eval = sub_weights(out, &constraint.wv, v);
            if !eval.ct_eq(&constraint.c) {
                proof {
                    assert(self@.first_faulty(i as nat + 1) == Some(i as int));
                    lemma_first_faulty_extends(self@, i as nat + 1, self@.constraints.len());
                }
                return Some(i);
            }
            i += 1;
        }
        None
    }
}


/// The three generator vectors as values of contracts.
pub open spec fn generators_of(g_bold1: Seq<Point>, g_bold2: Seq<Point>, h_bold1: Seq<Point>) -> Generators {
    Generators {
        g_bold1: coordinates(g_bold1),
        g_bold2: coordinates(g_bold2),
        h_bold1: coordinates(h_bold1),
    }
}

fn role_value(witness: &Option<(Vec<Scalar>, Vec<Scalar>)>, r: ProductReference) -> (v: Option<Scalar>)
    requires
        witness is Some ==> r.product_model() < witness->Some_0.0@.len() && witness->Some_0.0@.len()
            == witness->Some_0.1@.len(),
    ensures
        optional_value(v) == match witness {
            Some(w) => Some(
                match r {
                    ProductReference::Left { .. } => w.0@[r.product_model() as int]@,
                    ProductReference::Right { .. } => w.1@[r.product_model() as int]@,
                    ProductReference::Output { .. } => smul(
                        w.0@[r.product_model() as int]@,
                        w.1@[r.product_model() as int]@,
                    ),
                },
            ),
            None => None,
        },
{
    match witness {
        Some(w) => Some(
            match r {
                ProductReference::Left { product, .. } => w.0[product],
                ProductReference::Right { product, .. } => w.1[product],
                ProductReference::Output { product, .. } => w.0[product].mul(&w.1[product]),
            },
        ),
        None => None,
    }
}

/// Whether the witness at hand is that of the circuit.
pub open spec fn witness_matches(m: CircuitModel, witness: Option<(Vec<Scalar>, Vec<Scalar>)>) -> bool {
    &&& (witness is Some) == m.prover
    &&& witness is Some ==> values(witness->Some_0.0@) == m.left_values() && values(witness->Some_0.1@)
        == m.right_values()
}

impl Circuit {
    /// The weight matrices and the constants of the constraints.
    fn weight_matrices(&self) -> (r: (ScalarMatrix, ScalarMatrix, ScalarMatrix, ScalarMatrix, Vec<Scalar>))
        requires
            self.well_formed(),
        ensures
            matrix_model(r.0) == Seq::new(self@.constraints.len(), |i: int| self@.constraints[i].wl),
            matrix_model(r.1) == Seq::new(self@.constraints.len(), |i: int| self@.constraints[i].wr),
            matrix_model(r.2) == Seq::new(self@.constraints.len(), |i: int| self@.constraints[i].wo),
            matrix_model(r.3) == Seq::new(self@.constraints.len(), |i: int| self@.constraints[i].wv),
            values(r.4@) == Seq::new(self@.constraints.len(), |i: int| self@.constraints[i].c),
            r.0.width_model() == self@.products.len(),
            r.1.width_model() == self@.products.len(),
            r.2.width_model() == self@.products.len(),
            r.3.width_model() == self@.commitments(),
    {
        proof {
            self.view_facts();
        }
        let mut wl = ScalarMatrix::new(self.products.len());
        let mut wr = ScalarMatrix::new(self.products.len());
        let mut wo = ScalarMatrix::new(self.products.len());
        let mut wv = ScalarMatrix::new(self.commitments);
        let mut c: Vec<Scalar> = Vec::new();
        let mut i: usize = 0;
        while i < self.constraints.len()
            invariant
                i <= self.constraints.len(),
                self@.constraints == Seq::new(self.constraints@.len(), |k: int| self.constraints@[k]@),
                wl.rows_model().len() == i,
                wr.rows_model().len() == i,
                wo.rows_model().len() == i,
                wv.rows_model().len() == i,
                c.len() == i,
                wl.width_model() == self@.products.len(),
                wr.width_model() == self@.products.len(),
                wo.width_model() == self@.products.len(),
                wv.width_model() == self@.commitments(),
                forall|k: int| 0 <= k < i ==> weights_model((#[trigger] wl.rows_model()[k])@) == self@.constraints[k].wl,
                forall|k: int| 0 <= k < i ==> weights_model((#[trigger] wr.rows_model()[k])@) == self@.constraints[k].wr,
                forall|k: int| 0 <= k < i ==> weights_model((#[trigger] wo.rows_model()[k])@) == self@.constraints[k].wo,
                forall|k: int| 0 <= k < i ==> weights_model((#[trigger] wv.rows_model()[k])@) == self@.constraints[k].wv,
                forall|k: int| 0 <= k < i ==> (#[trigger] c@[k])@ == self@.constraints[k].c,
            decreases self.constraints.len() - i,
        {
            let constraint = &self.constraints[i];
            proof {
                constraint.view_facts();
            }
            wl.push(copy_row(&constraint.wl));
            wr.push(copy_row(&constraint.wr));
            wo.push(copy_row(&constraint.wo));
            wv.push(copy_row(&constraint.wv));
            c.push(constraint.c);
            i += 1;
        }
        proof {
            assert(matrix_model(wl) =~= Seq::new(self@.constraints.len(), |i: int| self@.constraints[i].wl));
            assert(matrix_model(wr) =~= Seq::new(self@.constraints.len(), |i: int| self@.constraints[i].wr));
            assert(matrix_model(wo) =~= Seq::new(self@.constraints.len(), |i: int| self@.constraints[i].wo));
            assert(matrix_model(wv) =~= Seq::new(self@.constraints.len(), |i: int| self@.constraints[i].wv));
            assert(values(c@) =~= Seq::new(self@.constraints.len(), |i: int| self@.constraints[i].c));
        }
        (wl, wr, wo, wv, c)
    }

    /// Puts the generators of one vector commitment's bindings in place,
    /// and lists its openings.
    fn bind_bucket(
        &self,
        vc: usize,
        witness: &Option<(Vec<Scalar>, Vec<Scalar>)>,
        g_bold1: &mut Vec<Point>,
        g_bold2: &mut Vec<Point>,
        h_bold1: &mut Vec<Point>,
    ) -> (r: Vec<Opening>)
        requires
            self.well_formed(),
            vc < self@.bound.len(),
            witness_matches(self@, *witness),
            self@.products.len() <= old(g_bold1)@.len(),
            self@.products.len() <= old(g_bold2)@.len(),
            self@.products.len() <= old(h_bold1)@.len(),
        ensures
            final(g_bold1)@.len() == old(g_bold1)@.len(),
            final(g_bold2)@.len() == old(g_bold2)@.len(),
            final(h_bold1)@.len() == old(h_bold1)@.len(),
            generators_of(final(g_bold1)@, final(g_bold2)@, final(h_bold1)@) == generators_of(
                old(g_bold1)@,
                old(g_bold2)@,
                old(h_bold1)@,
            ).bind_list(self@.bound[vc as int], self@.bound[vc as int].len()),
            openings_model(r@) == self@.bucket_openings(
                generators_of(old(g_bold1)@, old(g_bold2)@, old(h_bold1)@),
                self@.bound[vc as int],
                self@.bound[vc as int].len(),
            ),
    {
        proof {
            self.view_facts();
        }
        let ghost start = generators_of(g_bold1@, g_bold2@, h_bold1@);
        let ghost model = self@.bound[vc as int];
        let list = &self.bound_products[vc];
        let mut out: Vec<Opening> = Vec::new();
        let mut k: usize = 0;
        proof {
            assert(openings_model(out@) =~= Seq::empty());
        }
        while k < list.len()
            invariant
                k <= list.len(),
                self@.well_formed(),
                witness_matches(self@, *witness),
                vc < self@.bound.len(),
                model == self@.bound[vc as int],
                model == bindings_model(list@),
                g_bold1@.len() == old(g_bold1)@.len(),
                g_bold2@.len() == old(g_bold2)@.len(),
                h_bold1@.len() == old(h_bold1)@.len(),
                self@.products.len() <= g_bold1@.len(),
                self@.products.len() <= g_bold2@.len(),
                self@.products.len() <= h_bold1@.len(),
                start == generators_of(old(g_bold1)@, old(g_bold2)@, old(h_bold1)@),
                generators_of(g_bold1@, g_bold2@, h_bold1@) == start.bind_list(model, k as nat),
                openings_model(out@) == self@.bucket_openings(start, model, k as nat),
            decreases list.len() - k,
        {
            let binding = list[k];
            let ghost before = out@;
            let ghost gens = generators_of(g_bold1@, g_bold2@, h_bold1@);
            proof {
                assert(model[k as int] == (binding.product, optional_point(binding.generator)));
                assert(self@.reference_ok(model[k as int].0));
                assert(values(witness->Some_0.0@).len() == witness->Some_0.0@.len());
                assert(values(witness->Some_0.1@).len() == witness->Some_0.1@.len());
            }
            let value = role_value(witness, binding.product);
            let generator = match binding.product {
                ProductReference::Left { product, .. } => {
                    let g = match binding.generator {
                        Some(g) => g,
                        None => g_bold1[product],
                    };
                    g_bold1.set(product, g);
                    g
                },
                ProductReference::Right { product, .. } => {
                    let g = match binding.generator {
                        Some(g) => g,
                        None => h_bold1[product],
                    };
                    h_bold1.set(product, g);
                    g
                },
                ProductReference::Output { product, .. } => {
                    let g = match binding.generator {
                        Some(g) => g,
                        None => g_bold2[product],
                    };
                    g_bold2.set(product, g);
                    g
                },
            };
            out.push(Opening { value, generator });
            proof {
                assert(generator@ == gens.chosen(model[k as int]));
                assert(coordinates(g_bold1@) =~= gens.bind(model[k as int]).g_bold1);
                assert(coordinates(g_bold2@) =~= gens.bind(model[k as int]).g_bold2);
                assert(coordinates(h_bold1@) =~= gens.bind(model[k as int]).h_bold1);
                assert(openings_model(out@) =~= openings_model(before).push((optional_value(value), generator@)));
                if witness is Some {
                    assert(values(witness->Some_0.0@)[binding.product.product_model() as int]
                        == witness->Some_0.0@[binding.product.product_model() as int]@);
                    assert(values(witness->Some_0.1@)[binding.product.product_model() as int]
                        == witness->Some_0.1@[binding.product.product_model() as int]@);
                }
                assert(optional_value(value) == self@.role_value(binding.product));
            }
            k += 1;
        }
        out
    }

    /// Whether a role of a product is bound in any vector commitment.
    fn is_role_bound(&self, role: u8, product: usize) -> (r: bool)
        ensures
            r == self@.role_bound(role as nat, product as int),
    {
        proof {
            self.view_facts();
        }
        let mut vc: usize = 0;
        while vc < self.bound_products.len()
            invariant
                vc <= self.bound_products.len(),
                self@.bound == Seq::new(self.bound_products@.len(), |i: int| bindings_model(self.bound_products@[i]@)),
                forall|v: int, k: int|
                    0 <= v < vc && 0 <= k < self@.bound[v].len() ==> !((#[trigger] self@.bound[v][k]).0.role_model()
                        == role && self@.bound[v][k].0.product_model() == product),
            decreases self.bound_products.len() - vc,
        {
            let list = &self.bound_products[vc];
            let mut k: usize = 0;
            while k < list.len()
                invariant
                    k <= list.len(),
                    vc < self.bound_products.len(),
                    *list == self.bound_products@[vc as int],
                    self@.bound == Seq::new(
                        self.bound_products@.len(),
                        |i: int| bindings_model(self.bound_products@[i]@),
                    ),
                    forall|j: int|
                        0 <= j < k ==> !((#[trigger] self@.bound[vc as int][j]).0.role_model() == role
                            && self@.bound[vc as int][j].0.product_model() == product),
                decreases list.len() - k,
            {
                assert(self@.bound[vc as int][k as int].0 == list@[k as int].product);
                if list[k].product.role() == role && list[k].product.product() == product {
                    return true;
                }
                k += 1;
            }
            vc += 1;
        }
        false
    }

    /// Appends the openings of one role that no vector commitment binds.
    fn role_openings(
        &self,
        role: u8,
        witness: &Option<(Vec<Scalar>, Vec<Scalar>)>,
        generators: &Vec<Point>,
        Ghost(gens): Ghost<Generators>,
        out: &mut Vec<Opening>,
    )
        requires
            self.well_formed(),
            role < 3,
            witness_matches(self@, *witness),
            self@.products.len() <= generators@.len(),
            coordinates(generators@) == if role == 0 {
                gens.g_bold1
            } else if role == 1 {
                gens.h_bold1
            } else {
                gens.g_bold2
            },
        ensures
            openings_model(final(out)@) == openings_model(old(out)@) + self@.role_others(
                gens,
                role as nat,
                self@.products.len(),
            ),
    {
        proof {
            self.view_facts();
            assert(openings_model(out@) =~= openings_model(out@) + Seq::empty());
        }
        let ghost start = openings_model(out@);
        let mut p: usize = 0;
        while p < self.products.len()
            invariant
                p <= self.products.len(),
                self@.products == self.products@,
                role < 3,
                witness_matches(self@, *witness),
                self@.products.len() <= generators@.len(),
                coordinates(generators@) == if role == 0 {
                    gens.g_bold1
                } else if role == 1 {
                    gens.h_bold1
                } else {
                    gens.g_bold2
                },
                openings_model(out@) == start + self@.role_others(gens, role as nat, p as nat),
            decreases self.products.len() - p,
        {
            if !self.is_role_bound(role, p) {
                let r = if role == 0 {
                    ProductReference::Left { product: p, variable: 0 }
                } else if role == 1 {
                    ProductReference::Right { product: p, variable: 0 }
                } else {
                    ProductReference::Output { product: p, variable: 0 }
                };
                proof {
                    assert(values(witness->Some_0.0@).len() == witness->Some_0.0@.len());
                    assert(values(witness->Some_0.1@).len() == witness->Some_0.1@.len());
                }
                let value = role_value(witness, r);
                let ghost before = out@;
                out.push(Opening { value, generator: generators[p] });
                proof {
                    if witness is Some {
                        assert(values(witness->Some_0.0@)[p as int] == witness->Some_0.0@[p as int]@);
                        assert(values(witness->Some_0.1@)[p as int] == witness->Some_0.1@[p as int]@);
                    }
                    assert(r == CircuitModel::role_reference(role as nat, p as int));
                    assert(coordinates(generators@)[p as int] == generators@[p as int]@);
                    assert(openings_model(out@) =~= openings_model(before).push(
                        (self@.role_value(r), gens.at(r)),
                    ));
                    assert((start + self@.role_others(gens, role as nat, p as nat)).push(
                        (self@.role_value(r), gens.at(r)),
                    ) =~= start + self@.role_others(gens, role as nat, p as nat).push(
                        (self@.role_value(r), gens.at(r)),
                    ));
                }
            }
            p += 1;
        }
    }
}


fn copy_points(points: &Vec<Point>) -> (r: Vec<Point>)
    ensures
        r@ == points@,
{
    let mut r: Vec<Point> = Vec::new();
    let mut i: usize = 0;
    while i < points.len()
        invariant
            i <= points.len(),
            r@ == points@.take(i as int),
        decreases points.len() - i,
    {
        r.push(points[i]);
        assert(points@.take(i as int + 1) =~= points@.take(i as int).push(points@[i as int]));
        i += 1;
    }
    assert(points@.take(points.len() as int) =~= points@);
    r
}

impl CircuitModel {
    /// The generators after the overrides of every vector commitment.
    pub open spec fn final_generators(self) -> Generators {
        self.generators().bind_all(self.bound, self.bound.len())
    }

    /// The openings of every vector commitment, each over the generators
    /// in place when its first binding is reached.
    pub open spec fn vector_commitment_openings(self) -> Seq<Seq<(Option<nat>, Jacobian)>> {
        Seq::new(
            self.bound.len(),
            |vc: int|
                self.bucket_openings(
                    self.generators().bind_all(self.bound, vc as nat),
                    self.bound[vc],
                    self.bound[vc].len(),
                ),
        )
    }
}

impl CircuitModel {
    /// The constraint for which the circuit does not compile, if there is
    /// one: the first that weighs a variable which no product uses; else,
    /// for a prover, the first that the witness does not satisfy.
    pub open spec fn fault(self) -> Option<int> {
        if self.first_unsettled(self.constraints.len()) is Some {
            self.first_unsettled(self.constraints.len())
        } else if self.prover {
            self.first_faulty(self.constraints.len())
        } else {
            None
        }
    }
}

/// An unsettled constraint found among the first `n` is the one found
/// among more.
pub proof fn lemma_first_unsettled_extends(m: CircuitModel, n: nat, upto: nat)
    requires
        n <= upto,
        m.first_unsettled(n) is Some,
    ensures
        m.first_unsettled(upto) == m.first_unsettled(n),
    decreases upto - n,
{
    if n < upto {
        lemma_first_unsettled_extends(m, n, (upto - 1) as nat);
    }
}

impl Circuit {
    /// The first constraint that weighs a variable which no product uses.
    fn find_unsettled(&self) -> (r: Option<usize>)
        ensures
            match r {
                Some(i) => self@.first_unsettled(self@.constraints.len()) == Some(i as int) && i
                    < self@.constraints.len(),
                None => self@.first_unsettled(self@.constraints.len()) is None,
            },
    {
        proof {
            self.view_facts();
        }
        let mut i: usize = 0;
        while i < self.constraints.len()
            invariant
                i <= self.constraints.len(),
                self@.constraints == Seq::new(self.constraints@.len(), |k: int| self.constraints@[k]@),
                self@.first_unsettled(i as nat) is None,
            decreases self.constraints.len() - i,
        {
            proof {
                self.constraints@[i as int].view_facts();
                assert(self@.constraints[i as int] == self.constraints@[i as int]@);
                assert(self@.constraints[i as int].wf.len() == self.constraints@[i as int].wf@.len());
            }
            if self.constraints[i].wf.len() > 0 {
                proof {
                    assert(self@.first_unsettled(i as nat + 1) == Some(i as int));
                    lemma_first_unsettled_extends(self@, i as nat + 1, self@.constraints.len());
                }
                return Some(i);
            }
            i += 1;
        }
        None
    }
}

impl CircuitModel {
    /// Whether a statement is the one that the circuit compiles to: its
    /// generators with each bound product's generator replaced, its
    /// committed points in order, and one row of each matrix and one
    /// constant for each constraint.
    pub open spec fn compiles_to(self, statement: ArithmeticCircuitStatement) -> bool {
        &&& statement.g@ == self.g
        &&& statement.h@ == self.h
        &&& statement.g_bold1@ == self.final_generators().g_bold1
        &&& statement.g_bold2@ == self.final_generators().g_bold2
        &&& statement.h_bold1@ == self.final_generators().h_bold1
        &&& statement.h_bold2@ == self.h_bold2
        &&& statement.v@ == committed_points(self.variables, self.variables.len())
        &&& matrix_model(statement.wl) == Seq::new(self.constraints.len(), |i: int| self.constraints[i].wl)
        &&& matrix_model(statement.wr) == Seq::new(self.constraints.len(), |i: int| self.constraints[i].wr)
        &&& matrix_model(statement.wo) == Seq::new(self.constraints.len(), |i: int| self.constraints[i].wo)
        &&& matrix_model(statement.wv) == Seq::new(self.constraints.len(), |i: int| self.constraints[i].wv)
        &&& statement.wl.width_model() == self.products.len()
        &&& statement.wr.width_model() == self.products.len()
        &&& statement.wo.width_model() == self.products.len()
        &&& statement.wv.width_model() == self.commitments()
        &&& statement.c@ == Seq::new(self.constraints.len(), |i: int| self.constraints[i].c)
    }

    /// Whether a witness is the circuit's: the left and right values of
    /// its products, and the values and masks of its committed inputs.
    pub open spec fn witnessed_by(self, witness: ArithmeticCircuitWitness) -> bool {
        &&& witness.al@ == self.left_values()
        &&& witness.ar@ == self.right_values()
        &&& witness.v@ == self.committed_values()
        &&& witness.gamma@ == self.committed_masks()
    }
}

impl Circuit {
    /// Compiles the circuit.
    ///
    /// A prover's circuit is checked first: the constraints are evaluated
    /// at the witness, and the first one whose sides differ is reported by
    /// its label. Then the statement is assembled: one matrix row and one
    /// constant per constraint, the committed points in order, and the
    /// generators, in which each bound product's generator is overwritten
    /// by the one it was bound under. With it come the openings of each
    /// vector commitment, the openings that no vector commitment binds,
    /// and for a prover the witness.
    ///
    /// A constraint that weighs a variable which no product uses cannot be
    /// part of a statement, since the statement weighs roles of products
    /// only: the first such constraint is reported by its label, before
    /// any witness is looked at.
    pub fn compile(self) -> (r: Result<Compiled, FaultyConstraint>)
        requires
            self.well_formed(),
            self@.generators_suffice(),
        ensures
            match r {
                Err(e) => self@.fault() is Some && e.label@ == self@.constraints[self@.fault()->Some_0].label,
                Ok(out) => {
                    &&& self@.fault() is None
                    &&& out.statement.g@ == self@.g
                    &&& out.statement.h@ == self@.h
                    &&& out.statement.g_bold1@ == self@.final_generators().g_bold1
                    &&& out.statement.g_bold2@ == self@.final_generators().g_bold2
                    &&& out.statement.h_bold1@ == self@.final_generators().h_bold1
                    &&& out.statement.h_bold2@ == self@.h_bold2
                    &&& out.statement.v@ == committed_points(self@.variables, self@.variables.len())
                    &&& matrix_model(out.statement.wl) == Seq::new(
                        self@.constraints.len(),
                        |i: int| self@.constraints[i].wl,
                    )
                    &&& matrix_model(out.statement.wr) == Seq::new(
                        self@.constraints.len(),
                        |i: int| self@.constraints[i].wr,
                    )
                    &&& matrix_model(out.statement.wo) == Seq::new(
                        self@.constraints.len(),
                        |i: int| self@.constraints[i].wo,
                    )
                    &&& matrix_model(out.statement.wv) == Seq::new(
                        self@.constraints.len(),
                        |i: int| self@.constraints[i].wv,
                    )
                    &&& out.statement.wl.width_model() == self@.products.len()
                    &&& out.statement.wr.width_model() == self@.products.len()
                    &&& out.statement.wo.width_model() == self@.products.len()
                    &&& out.statement.wv.width_model() == self@.commitments()
                    &&& out.statement.c@ == Seq::new(self@.constraints.len(), |i: int| self@.constraints[i].c)
                    &&& opening_lists_model(out.vector_commitments@) == self@.vector_commitment_openings()
                    &&& openings_model(out.others@) == self@.others(self@.final_generators())
                    &&& (out.witness is Some) == self@.prover
                    &&& out.witness is Some ==> {
                        &&& out.witness->Some_0.al@ == self@.left_values()
                        &&& out.witness->Some_0.ar@ == self@.right_values()
                        &&& out.witness->Some_0.v@ == self@.committed_values()
                        &&& out.witness->Some_0.gamma@ == self@.committed_masks()
                    }
                },
            },
    {
        proof {
            self.view_facts();
        }
        match self.find_unsettled() {
            Some(i) => {
                proof {
                    self.constraints@[i as int].view_facts();
                }
                return Err(FaultyConstraint { label: self.constraints[i].label });
            },
            None => {},
        }
        let gates = if self.prover {
            Some(self.gate_values())
        } else {
            None
        };
        let (points, vals, masks) = self.committed_inputs();
        match &gates {
            Some(w) => {
                match self.find_faulty(&w.0, &w.1, &vals) {
                    Some(i) => {
                        proof {
                            self.constraints@[i as int].view_facts();
                        }
                        return Err(FaultyConstraint { label: self.constraints[i].label });
                    },
                    None => {},
                }
            },
            None => {},
        }
        let (wl, wr, wo, wv, c) = self.weight_matrices();

        let mut g_bold1 = copy_points(&self.g_bold1);
        let mut g_bold2 = copy_points(&self.g_bold2);
        let mut h_bold1 = copy_points(&self.h_bold1);
        let ghost start = self@.generators();
        let mut vector_commitments: Vec<Vec<Opening>> = Vec::new();
        let mut vc: usize = 0;
        while vc < self.bound_products.len()
            invariant
                vc <= self.bound_products.len(),
                self.well_formed(),
                self@.bound.len() == self.bound_products@.len(),
                witness_matches(self@, gates),
                start == self@.generators(),
                self@.products.len() <= g_bold1@.len(),
                self@.products.len() <= g_bold2@.len(),
                self@.products.len() <= h_bold1@.len(),
                generators_of(g_bold1@, g_bold2@, h_bold1@) == start.bind_all(self@.bound, vc as nat),
                vector_commitments.len() == vc,
                forall|v: int|
                    0 <= v < vc ==> openings_model((#[trigger] vector_commitments@[v])@) == self@.bucket_openings(
                        start.bind_all(self@.bound, v as nat),
                        self@.bound[v],
                        self@.bound[v].len(),
                    ),
            decreases self.bound_products.len() - vc,
        {
            let openings = self.bind_bucket(vc, &gates, &mut g_bold1, &mut g_bold2, &mut h_bold1);
            vector_commitments.push(openings);
            vc += 1;
        }
        proof {
            assert(opening_lists_model(vector_commitments@) =~= self@.vector_commitment_openings());
        }
        let ghost gens = self@.final_generators();
        let mut others: Vec<Opening> = Vec::new();
        proof {
            assert(openings_model(others@) =~= Seq::empty());
        }
        self.role_openings(0, &gates, &g_bold1, Ghost(gens), &mut others);
        self.role_openings(1, &gates, &h_bold1, Ghost(gens), &mut others);
        self.role_openings(2, &gates, &g_bold2, Ghost(gens), &mut others);
        proof {
            assert(openings_model(others@) =~= self@.others(gens));
        }
        let witness = match gates {
            Some(w) => Some(
                ArithmeticCircuitWitness {
                    al: ScalarVector(w.0),
                    ar: ScalarVector(w.1),
                    v: ScalarVector(vals),
                    gamma: ScalarVector(masks),
                },
            ),
            None => None,
        };
        let h_bold2 = copy_points(&self.h_bold2);
        Ok(
            Compiled {
                statement: ArithmeticCircuitStatement {
                    g: self.g,
                    h: self.h,
                    g_bold1: PointVector(g_bold1),
                    g_bold2: PointVector(g_bold2),
                    h_bold1: PointVector(h_bold1),
                    h_bold2: PointVector(h_bold2),
                    v: PointVector(points),
                    wl,
                    wr,
                    wo,
                    wv,
                    c: ScalarVector(c),
                },
                vector_commitments,
                others,
                witness,
            },
        )
    }
}

} // verus!
