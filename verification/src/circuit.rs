//! The arithmetic-circuit builder: products `aL * aR = aO` and linear
//! constraints `WL aL + WR aR + WO aO = WV v + c` over committed inputs.
//!
//! Variables, products, commitments and vector commitments are named by
//! indices into vectors that the circuit owns. Every operation is
//! described by a function of [`CircuitModel`], the circuit's content as
//! numbers, and the executable builder is proved to compute it.

use vstd::prelude::*;
use crate::point::{add_model, mul_model, same_point, Jacobian, Point};
use crate::scalar::Scalar;
use crate::vector::{sadd, smul, ssub};

verus! {

/// A Pedersen commitment in the clear: a value and the mask that hides it.
#[derive(Clone, Copy, Debug)]
pub struct Commitment {
    pub value: Scalar,
    pub mask: Scalar,
}

/// The point that commits to `value` under `mask`: `value g + mask h`.
pub open spec fn commitment_model(value: nat, mask: nat, g: Jacobian, h: Jacobian) -> Jacobian {
    add_model(mul_model(g, value), mul_model(h, mask))
}

impl Commitment {
    /// The commitment to zero under a zero mask.
    pub fn zero() -> (r: Commitment)
        ensures
            r.value@ == 0,
            r.mask@ == 0,
    {
        Commitment { value: Scalar::zero(), mask: Scalar::zero() }
    }

    /// The commitment to a value under a mask.
    pub fn new(value: Scalar, mask: Scalar) -> (r: Commitment)
        ensures
            r.value == value,
            r.mask == mask,
    {
        Commitment { value, mask }
    }

    /// The commitment to a value under the mask that 128 bytes of entropy
    /// reduce to.
    pub fn masking(entropy: &[u8; 128], value: Scalar) -> (r: Commitment)
        ensures
            r.value == value,
            r.mask@ == crate::le::le_nat(entropy@) % crate::scalar::modulus(),
    {
        Commitment { value, mask: Scalar::from_wide(entropy) }
    }

    /// The commitment as a point.
    pub fn calculate(&self, g: &Point, h: &Point) -> (r: Point)
        ensures
            r@ == commitment_model(self.value@, self.mask@, g@, h@),
    {
        g.mul(&self.value).add(&h.mul(&self.mask))
    }
}

/// A variable of the witness.
#[derive(Clone, Copy, Debug)]
pub enum Variable {
    /// An input that only the prover knows.
    Secret(Option<Scalar>),
    /// An input committed to in public, with its commitment.
    Committed(Option<Commitment>, Point),
    /// The output of a product, with the product's index.
    Product(usize, Option<Scalar>),
}

/// [`Variable`] as a value of contracts.
pub ghost enum VariableModel {
    Secret(Option<nat>),
    Committed(Option<(nat, nat)>, Jacobian),
    Product(nat, Option<nat>),
}

/// An optional scalar as a value of contracts.
pub open spec fn optional_value(s: Option<Scalar>) -> Option<nat> {
    match s {
        Some(s) => Some(s@),
        None => None,
    }
}

/// An optional point as a value of contracts.
pub open spec fn optional_point(p: Option<Point>) -> Option<Jacobian> {
    match p {
        Some(p) => Some(p@),
        None => None,
    }
}

impl View for Variable {
    type V = VariableModel;

    open spec fn view(&self) -> VariableModel {
        match self {
            Variable::Secret(v) => VariableModel::Secret(optional_value(*v)),
            Variable::Committed(c, p) => VariableModel::Committed(
                match c {
                    Some(c) => Some((c.value@, c.mask@)),
                    None => None,
                },
                p@,
            ),
            Variable::Product(id, v) => VariableModel::Product(*id as nat, optional_value(*v)),
        }
    }
}

impl VariableModel {
    /// The value of a variable that is not a committed input.
    pub open spec fn value(self) -> Option<nat> {
        match self {
            VariableModel::Secret(v) => v,
            VariableModel::Committed(_, _) => None,
            VariableModel::Product(_, v) => v,
        }
    }
}

impl Variable {
    /// The value of a variable that is not a committed input.
    pub fn value(&self) -> (r: Option<Scalar>)
        requires
            !(self is Committed),
        ensures
            optional_value(r) == self@.value(),
    {
        match self {
            Variable::Secret(value) => *value,
            Variable::Committed(_, _) => None,
            Variable::Product(_, product) => *product,
        }
    }
}

/// The name of a variable.
#[derive(Clone, Copy, Debug, PartialEq, Eq, Structural)]
pub struct VariableReference(pub usize);

/// The name of a variable in one role of one product.
#[derive(Clone, Copy, Debug, PartialEq, Eq, Structural)]
pub enum ProductReference {
    Left { product: usize, variable: usize },
    Right { product: usize, variable: usize },
    Output { product: usize, variable: usize },
}

/// The name of a committed input.
#[derive(Clone, Copy, Debug)]
pub struct CommitmentReference(pub usize);

/// The name of a vector commitment.
#[derive(Clone, Copy, Debug, PartialEq, Eq, Structural)]
pub struct VectorCommitmentReference(pub usize);

impl ProductReference {
    /// The product.
    pub open spec fn product_model(self) -> usize {
        match self {
            ProductReference::Left { product, .. } => product,
            ProductReference::Right { product, .. } => product,
            ProductReference::Output { product, .. } => product,
        }
    }

    /// The variable.
    pub open spec fn variable_model(self) -> usize {
        match self {
            ProductReference::Left { variable, .. } => variable,
            ProductReference::Right { variable, .. } => variable,
            ProductReference::Output { variable, .. } => variable,
        }
    }

    /// The role: 0 for left, 1 for right, 2 for output.
    pub open spec fn role_model(self) -> nat {
        match self {
            ProductReference::Left { .. } => 0,
            ProductReference::Right { .. } => 1,
            ProductReference::Output { .. } => 2,
        }
    }

    /// The product.
    pub fn product(&self) -> (r: usize)
        ensures
            r == self.product_model(),
    {
        match self {
            ProductReference::Left { product, .. } => *product,
            ProductReference::Right { product, .. } => *product,
            ProductReference::Output { product, .. } => *product,
        }
    }

    /// The role: 0 for left, 1 for right, 2 for output.
    pub fn role(&self) -> (r: u8)
        ensures
            r == self.role_model(),
    {
        match self {
            ProductReference::Left { .. } => 0,
            ProductReference::Right { .. } => 1,
            ProductReference::Output { .. } => 2,
        }
    }

    /// Whether two references name one role of one product.
    pub open spec fn same_role(self, other: ProductReference) -> bool {
        self.role_model() == other.role_model() && self.product_model() == other.product_model()
    }

    /// Whether this reference comes before another: by role, then by
    /// product, then by variable.
    pub open spec fn before_model(self, other: ProductReference) -> bool {
        self.role_model() < other.role_model() || (self.role_model() == other.role_model() && (
            self.product_model() < other.product_model() || (self.product_model() == other.product_model()
                && self.variable_model() < other.variable_model())))
    }

    /// Whether this reference comes before another: by role, then by
    /// product, then by variable.
    pub fn before(&self, other: &ProductReference) -> (r: bool)
        ensures
            r == self.before_model(*other),
    {
        let (role, product, variable) = match self {
            ProductReference::Left { product, variable } => (0u8, *product, *variable),
            ProductReference::Right { product, variable } => (1u8, *product, *variable),
            ProductReference::Output { product, variable } => (2u8, *product, *variable),
        };
        let (other_role, other_product, other_variable) = match other {
            ProductReference::Left { product, variable } => (0u8, *product, *variable),
            ProductReference::Right { product, variable } => (1u8, *product, *variable),
            ProductReference::Output { product, variable } => (2u8, *product, *variable),
        };
        role < other_role || (role == other_role && (product < other_product || (product == other_product
            && variable < other_variable)))
    }
}

/// The weights of one matrix row as values of contracts.
pub open spec fn weights_model(w: Seq<(usize, Scalar)>) -> Seq<(usize, nat)> {
    Seq::new(w.len(), |i: int| (w[i].0, w[i].1@))
}

/// The first position in a row that holds a weight for `id`, if any.
pub open spec fn find_weight(row: Seq<(usize, nat)>, id: usize) -> Option<int>
    decreases row.len(),
{
    if row.len() == 0 {
        None
    } else if find_weight(row.drop_last(), id) is Some {
        find_weight(row.drop_last(), id)
    } else if row.last().0 == id {
        Some(row.len() - 1)
    } else {
        None
    }
}

/// A row after `weight` was given to `id`: added to the weight that `id`
/// has, or appended if it has none.
pub open spec fn accumulate_model(row: Seq<(usize, nat)>, id: usize, weight: nat) -> Seq<(usize, nat)> {
    match find_weight(row, id) {
        Some(k) => row.update(k, (id, sadd(row[k].1, weight))),
        None => row.push((id, weight)),
    }
}

/// A position found in a prefix of a row is the position in the row.
pub proof fn lemma_find_weight_extends(row: Seq<(usize, nat)>, id: usize, n: nat)
    requires
        n <= row.len(),
        find_weight(row.take(n as int), id) is Some,
    ensures
        find_weight(row, id) == find_weight(row.take(n as int), id),
    decreases row.len() - n,
{
    if n < row.len() {
        assert(row.take(n as int + 1).drop_last() =~= row.take(n as int));
        lemma_find_weight_extends(row, id, n + 1);
    } else {
        assert(row.take(n as int) =~= row);
    }
}

fn accumulate(row: &mut Vec<(usize, Scalar)>, id: usize, weight: Scalar)
    ensures
        weights_model(final(row)@) == accumulate_model(weights_model(old(row)@), id, weight@),
{
    let ghost before = weights_model(row@);
    let mut k: usize = 0;
    while k < row.len()
        invariant
            k <= row.len(),
            weights_model(row@) == before,
            before == weights_model(old(row)@),
            find_weight(before.take(k as int), id) is None,
        decreases row.len() - k,
    {
        proof {
            assert(before.take(k as int + 1).drop_last() =~= before.take(k as int));
            assert(before[k as int] == (row@[k as int].0, row@[k as int].1@));
        }
        if row[k].0 == id {
            proof {
                assert(before.take(k as int + 1).last() == before[k as int]);
                assert(find_weight(before.take(k as int + 1), id) == Some(k as int));
                lemma_find_weight_extends(before, id, k as nat + 1);
            }
            let sum = row[k].1.add(&weight);
            row.set(k, (id, sum));
            assert(weights_model(row@) =~= before.update(k as int, (id, sadd(before[k as int].1, weight@))));
            return ;
        }
        k += 1;
    }
    proof {
        assert(before.take(k as int) =~= before);
    }
    row.push((id, weight));
    assert(weights_model(row@) =~= before.push((id, weight@)));
}

/// A linear constraint: weights on the left, right and output of
/// products and on committed inputs, and a constant. It may also weigh
/// variables that no product uses yet; the circuit moves such a weight to
/// the variable's role when a product first uses the variable.
#[derive(Clone, Debug)]
pub struct Constraint {
    pub(crate) label: &'static str,
    pub(crate) wl: Vec<(usize, Scalar)>,
    pub(crate) wr: Vec<(usize, Scalar)>,
    pub(crate) wo: Vec<(usize, Scalar)>,
    pub(crate) wv: Vec<(usize, Scalar)>,
    pub(crate) wf: Vec<(usize, Scalar)>,
    pub(crate) c: Scalar,
}

/// [`Constraint`] as a value of contracts.
pub ghost struct ConstraintModel {
    pub label: Seq<char>,
    pub wl: Seq<(usize, nat)>,
    pub wr: Seq<(usize, nat)>,
    pub wo: Seq<(usize, nat)>,
    pub wv: Seq<(usize, nat)>,
    /// The weights on variables that no product uses yet, by variable.
    pub wf: Seq<(usize, nat)>,
    pub c: nat,
}

impl View for Constraint {
    type V = ConstraintModel;

    closed spec fn view(&self) -> ConstraintModel {
        ConstraintModel {
            label: self.label@,
            wl: weights_model(self.wl@),
            wr: weights_model(self.wr@),
            wo: weights_model(self.wo@),
            wv: weights_model(self.wv@),
            wf: weights_model(self.wf@),
            c: self.c@,
        }
    }
}

impl ConstraintModel {
    /// The constraint with no weights and constant zero.
    pub open spec fn empty(label: Seq<char>) -> ConstraintModel {
        ConstraintModel {
            label,
            wl: Seq::empty(),
            wr: Seq::empty(),
            wo: Seq::empty(),
            wv: Seq::empty(),
            wf: Seq::empty(),
            c: 0,
        }
    }

    /// The constraint after a weight was given to a role of a product.
    pub open spec fn weight(self, product: ProductReference, weight: nat) -> ConstraintModel {
        match product {
            ProductReference::Left { product: id, .. } => ConstraintModel {
                wl: accumulate_model(self.wl, id, weight),
                ..self
            },
            ProductReference::Right { product: id, .. } => ConstraintModel {
                wr: accumulate_model(self.wr, id, weight),
                ..self
            },
            ProductReference::Output { product: id, .. } => ConstraintModel {
                wo: accumulate_model(self.wo, id, weight),
                ..self
            },
        }
    }

    /// The constraint after a weight was given to a variable that no
    /// product uses yet.
    pub open spec fn weight_variable(self, v: usize, weight: nat) -> ConstraintModel {
        ConstraintModel { wf: accumulate_model(self.wf, v, weight), ..self }
    }

    /// The constraint after variable `v` got the role `r`: the weight that
    /// it has for `v`, if any, is given to `r`.
    pub open spec fn settle(self, v: usize, r: ProductReference) -> ConstraintModel {
        match find_weight(self.wf, v) {
            Some(k) => (ConstraintModel { wf: self.wf.remove(k), ..self }).weight(r, self.wf[k].1),
            None => self,
        }
    }

    /// Whether a committed input has a weight.
    pub open spec fn weighs_commitment(self, id: usize) -> bool {
        exists|k: int| 0 <= k < self.wv.len() && (#[trigger] self.wv[k]).0 == id
    }
}

impl Constraint {
    /// The constraint with no weights and constant zero.
    pub fn new(label: &'static str) -> (r: Constraint)
        ensures
            r@ == ConstraintModel::empty(label@),
    {
        let r = Constraint {
            label,
            wl: Vec::new(),
            wr: Vec::new(),
            wo: Vec::new(),
            wv: Vec::new(),
            wf: Vec::new(),
            c: Scalar::zero(),
        };
        assert(weights_model(r.wl@) =~= Seq::empty());
        assert(weights_model(r.wr@) =~= Seq::empty());
        assert(weights_model(r.wo@) =~= Seq::empty());
        assert(weights_model(r.wv@) =~= Seq::empty());
        assert(weights_model(r.wf@) =~= Seq::empty());
        r
    }

    /// The label that names the constraint.
    pub fn label(&self) -> (r: &'static str)
        ensures
            r@ == self@.label,
    {
        self.label
    }

    /// Gives a weight to a role of a product, on top of the weight it has.
    pub fn weight(&mut self, product: ProductReference, weight: Scalar)
        ensures
            final(self)@ == old(self)@.weight(product, weight@),
    {
        match product {
            ProductReference::Left { product: id, variable: _ } => accumulate(&mut self.wl, id, weight),
            ProductReference::Right { product: id, variable: _ } => accumulate(&mut self.wr, id, weight),
            ProductReference::Output { product: id, variable: _ } => accumulate(&mut self.wo, id, weight),
        }
    }

    /// Gives a weight to a committed input that has none yet.
    pub fn weight_commitment(&mut self, variable: CommitmentReference, weight: Scalar)
        requires
            !old(self)@.weighs_commitment(variable.0),
        ensures
            final(self)@ == (ConstraintModel { wv: old(self)@.wv.push((variable.0, weight@)), ..old(self)@ }),
    {
        let ghost before = weights_model(self.wv@);
        self.wv.push((variable.0, weight));
        assert(weights_model(self.wv@) =~= before.push((variable.0, weight@)));
    }

    /// Sets the constant of a constraint whose constant is zero.
    pub fn rhs_offset(&mut self, offset: Scalar)
        requires
            old(self)@.c == 0,
        ensures
            final(self)@ == (ConstraintModel { c: offset@, ..old(self)@ }),
    {
        self.c = offset;
    }
}


/// A product: the variables on its left, on its right and at its
/// output.
#[derive(Clone, Copy, Debug)]
pub struct Product {
    pub left: usize,
    pub right: usize,
    pub variable: usize,
}

/// A product bound into a vector commitment, with the generator that
/// replaces the circuit's own, if one does.
#[derive(Clone, Copy, Debug)]
pub struct Binding {
    pub product: ProductReference,
    pub generator: Option<Point>,
}

/// Why a product could not be bound into a vector commitment.
#[derive(Clone, Copy, Debug, PartialEq, Eq, Structural)]
pub enum BindError {
    /// The vector commitment was finalized.
    Finalized,
    /// The product is bound already, here or in another vector commitment.
    AlreadyBound,
}

/// The content of a circuit.
pub ghost struct CircuitModel {
    pub prover: bool,
    pub variables: Seq<VariableModel>,
    pub products: Seq<Product>,
    pub bound: Seq<Seq<(ProductReference, Option<Jacobian>)>>,
    pub finalized: Seq<Option<Option<nat>>>,
    pub vector_commitments: Option<Seq<Jacobian>>,
    pub constraints: Seq<ConstraintModel>,
    pub g: Jacobian,
    pub h: Jacobian,
    pub g_bold1: Seq<Jacobian>,
    pub g_bold2: Seq<Jacobian>,
    pub h_bold1: Seq<Jacobian>,
    pub h_bold2: Seq<Jacobian>,
}

/// The number of committed inputs among the first `n` variables.
pub open spec fn committed_count(variables: Seq<VariableModel>, n: nat) -> nat
    decreases n,
{
    if n == 0 {
        0
    } else if variables[n - 1] is Committed {
        committed_count(variables, (n - 1) as nat) + 1
    } else {
        committed_count(variables, (n - 1) as nat)
    }
}

/// Whether every index of a row is below `n`.
pub open spec fn row_below(row: Seq<(usize, nat)>, n: nat) -> bool {
    forall|i: int| 0 <= i < row.len() ==> (#[trigger] row[i]).0 < n
}

/// The first product that multiplies `a` by `b`, if there is one.
pub open spec fn find_product(products: Seq<Product>, a: usize, b: usize) -> Option<int>
    decreases products.len(),
{
    if products.len() == 0 {
        None
    } else if find_product(products.drop_last(), a, b) is Some {
        find_product(products.drop_last(), a, b)
    } else if products.last().left == a && products.last().right == b {
        Some(products.len() - 1)
    } else {
        None
    }
}

/// The first product that has `v` on its left or on its right, if there is
/// one.
pub open spec fn find_use(products: Seq<Product>, v: usize) -> Option<int>
    decreases products.len(),
{
    if products.len() == 0 {
        None
    } else if find_use(products.drop_last(), v) is Some {
        find_use(products.drop_last(), v)
    } else if products.last().left == v || products.last().right == v {
        Some(products.len() - 1)
    } else {
        None
    }
}

/// The number of leading bindings that come before `key`: the place where
/// `key` is put to keep a list in order.
pub open spec fn insert_position(list: Seq<(ProductReference, Option<Jacobian>)>, key: ProductReference) -> nat
    decreases list.len(),
{
    if list.len() == 0 {
        0
    } else if list[0].0.before_model(key) {
        1 + insert_position(list.skip(1), key)
    } else {
        0
    }
}

/// Whether a role of a product is bound in a list.
pub open spec fn bound_in(list: Seq<(ProductReference, Option<Jacobian>)>, key: ProductReference) -> bool {
    exists|k: int| 0 <= k < list.len() && (#[trigger] list[k]).0.same_role(key)
}

/// Whether no role of a product is bound twice, in one vector commitment
/// or in two.
pub open spec fn no_role_twice(bound: Seq<Seq<(ProductReference, Option<Jacobian>)>>) -> bool {
    forall|v: int, j: int, w: int, k: int|
        0 <= v < bound.len() && 0 <= j < bound[v].len() && 0 <= w < bound.len() && 0 <= k < bound[w].len() && (v
            != w || j != k) ==> !(#[trigger] bound[v][j]).0.same_role((#[trigger] bound[w][k]).0)
}

/// The constraint `1 a - 1 b = 0`.
pub open spec fn equality_constraint(a: ProductReference, b: ProductReference) -> ConstraintModel {
    ConstraintModel::empty("equality"@).weight(a, 1).weight(b, ssub(0, 1))
}

impl CircuitModel {
    /// The number of committed inputs.
    pub open spec fn commitments(self) -> nat {
        committed_count(self.variables, self.variables.len())
    }

    /// Whether `v` names a variable that is not a committed input: one that
    /// can enter a product.
    pub open spec fn operand(self, v: usize) -> bool {
        v < self.variables.len() && !(self.variables[v as int] is Committed)
    }

    /// Whether a reference names a product of the circuit and a variable that
    /// can enter a product.
    pub open spec fn reference_ok(self, r: ProductReference) -> bool {
        r.product_model() < self.products.len() && self.operand(r.variable_model())
    }

    /// Whether the variable at `v` is as the circuit's mode asks: with a
    /// value in a prover's circuit and without one in a verifier's, and, if
    /// it is the output of a product, the output of a product that names it.
    pub open spec fn variable_ok(self, v: int) -> bool {
        match self.variables[v] {
            VariableModel::Secret(x) => (x is Some) == self.prover,
            VariableModel::Committed(c, _) => (c is Some) == self.prover,
            VariableModel::Product(p, x) => (x is Some) == self.prover && p < self.products.len()
                && self.products[p as int].variable == v,
        }
    }

    /// Whether the product at `p` multiplies two operands into a variable that
    /// names it.
    pub open spec fn product_ok(self, p: int) -> bool {
        let gate = self.products[p];
        &&& self.operand(gate.left)
        &&& self.operand(gate.right)
        &&& gate.variable < self.variables.len()
        &&& self.variables[gate.variable as int] is Product
        &&& self.variables[gate.variable as int]->Product_0 == p
    }

    /// Whether a constraint speaks of products and committed inputs of the
    /// circuit only.
    pub open spec fn constraint_fits(self, c: ConstraintModel) -> bool {
        &&& row_below(c.wl, self.products.len())
        &&& row_below(c.wr, self.products.len())
        &&& row_below(c.wo, self.products.len())
        &&& row_below(c.wv, self.commitments())
    }

    /// The invariant of a circuit.
    pub open spec fn well_formed(self) -> bool {
        &&& forall|v: int| 0 <= v < self.variables.len() ==> #[trigger] self.variable_ok(v)
        &&& forall|p: int| 0 <= p < self.products.len() ==> #[trigger] self.product_ok(p)
        &&& self.bound.len() == self.finalized.len()
        &&& (self.vector_commitments is None) == self.prover
        &&& forall|vc: int, k: int|
            0 <= vc < self.bound.len() && 0 <= k < self.bound[vc].len() ==> self.reference_ok(
                (#[trigger] self.bound[vc][k]).0,
            )
        &&& forall|c: int| 0 <= c < self.constraints.len() ==> self.constraint_fits(#[trigger] self.constraints[c])
        &&& no_role_twice(self.bound)
    }

    /// The role in which a variable is used by a product: the output of the
    /// product that made it; else the left or the right of the first product that
    /// has it there; else none.
    pub open spec fn variable_to_product(self, v: usize) -> Option<ProductReference> {
        match self.variables[v as int] {
            VariableModel::Product(p, _) => Some(ProductReference::Output { product: p as usize, variable: v }),
            _ => match find_use(self.products, v) {
                Some(p) => if self.products[p].left == v {
                    Some(ProductReference::Left { product: p as usize, variable: self.products[p].left })
                } else {
                    Some(ProductReference::Right { product: p as usize, variable: self.products[p].right })
                },
                None => None,
            },
        }
    }

    /// The circuit after a variable was appended.
    pub open spec fn push_variable(self, v: VariableModel) -> CircuitModel {
        CircuitModel { variables: self.variables.push(v), ..self }
    }

    /// The circuit after a constraint was appended.
    pub open spec fn constrain(self, c: ConstraintModel) -> CircuitModel {
        CircuitModel { constraints: self.constraints.push(c), ..self }
    }

    /// The circuit after two roles were constrained to be equal: as it
    /// was if they are one role, else with the constraint `1 a - 1 b = 0`.
    pub open spec fn constrain_equality(self, a: ProductReference, b: ProductReference) -> CircuitModel {
        if a == b {
            self
        } else {
            self.constrain(equality_constraint(a, b))
        }
    }

    /// The circuit after an optional earlier use of a variable was
    /// constrained to equal its new use.
    pub open spec fn constrain_use(self, new: ProductReference, existing: Option<ProductReference>) -> CircuitModel {
        match existing {
            Some(e) => self.constrain_equality(new, e),
            None => self,
        }
    }

    /// The value of the product of two operands: their product for a
    /// prover, none for a verifier.
    pub open spec fn product_value(self, a: usize, b: usize) -> Option<nat> {
        if self.prover {
            Some(smul(self.variables[a as int].value()->Some_0, self.variables[b as int].value()->Some_0))
        } else {
            None
        }
    }

    /// The circuit after `a` and `b` were used in a product relationship:
    /// as it was if a product multiplies them already; else with a new product, a
    /// new variable for its output, and one equality constraint for each of
    /// `a` and `b` that was in use before, tying the new use to the old.
    /// For each of `a` and `b` that is used here for the first time, the
    /// constraints that weigh it now weigh its new role.
    pub open spec fn product(self, a: usize, b: usize) -> CircuitModel {
        if find_product(self.products, a, b) is Some {
            self
        } else {
            let id = self.products.len() as usize;
            let out = self.variables.len() as usize;
            let grown = CircuitModel {
                products: self.products.push(Product { left: a, right: b, variable: out }),
                variables: self.variables.push(VariableModel::Product(id as nat, self.product_value(a, b))),
                ..self
            };
            grown.constrain_use(
                ProductReference::Left { product: id, variable: a },
                self.variable_to_product(a),
            ).constrain_use(
                ProductReference::Right { product: id, variable: b },
                self.variable_to_product(b),
            ).settle(
                a,
                ProductReference::Left { product: id, variable: a },
                self.variable_to_product(a) is None,
            ).settle(
                b,
                ProductReference::Right { product: id, variable: b },
                self.variable_to_product(b) is None && a != b,
            )
        }
    }

    /// The circuit after variable `v` got the role `r`, if this is its
    /// first use: every constraint that weighs `v` now weighs `r`. As it
    /// was otherwise.
    pub open spec fn settle(self, v: usize, r: ProductReference, first: bool) -> CircuitModel {
        if first {
            CircuitModel {
                constraints: Seq::new(self.constraints.len(), |i: int| self.constraints[i].settle(v, r)),
                ..self
            }
        } else {
            self
        }
    }

    /// The circuit after a constraint that also weighs variable `v` was
    /// appended: with the weight on the role in which `v` is in use, or
    /// on `v` itself if no product uses it yet.
    pub open spec fn constrain_variable(self, c: ConstraintModel, v: usize, weight: nat) -> CircuitModel {
        match self.variable_to_product(v) {
            Some(r) => self.constrain(c.weight(r, weight)),
            None => self.constrain(c.weight_variable(v, weight)),
        }
    }

    /// The first of the first `n` constraints that weighs a variable which
    /// no product uses, if there is one.
    pub open spec fn first_unsettled(self, n: nat) -> Option<int>
        decreases n,
    {
        if n == 0 {
            None
        } else if self.first_unsettled((n - 1) as nat) is Some {
            self.first_unsettled((n - 1) as nat)
        } else if self.constraints[n - 1].wf.len() > 0 {
            Some(n - 1)
        } else {
            None
        }
    }

    /// Whether no product multiplies variable `v`.
    pub open spec fn unused(self, v: usize) -> bool {
        forall|p: int|
            0 <= p < self.products.len() ==> (#[trigger] self.products[p]).left != v && self.products[p].right != v
    }


    /// The references that a product relationship of `a` and `b` is known
    /// by: those of the product that multiplies them already, else those of
    /// the new product.
    pub open spec fn product_references(self, a: usize, b: usize) -> (
        (ProductReference, ProductReference, ProductReference),
        VariableReference,
    ) {
        let (id, out) = match find_product(self.products, a, b) {
            Some(p) => (p as usize, self.products[p].variable),
            None => (self.products.len() as usize, self.variables.len() as usize),
        };
        (
            (
                ProductReference::Left { product: id, variable: a },
                ProductReference::Right { product: id, variable: b },
                ProductReference::Output { product: id, variable: out },
            ),
            VariableReference(out),
        )
    }

    /// Whether a role of a product is bound in any vector commitment.
    pub open spec fn is_bound(self, product: ProductReference) -> bool {
        exists|vc: int| 0 <= vc < self.bound.len() && bound_in(#[trigger] self.bound[vc], product)
    }

    /// The circuit after a product was bound into a vector commitment, at
    /// its place in the order of references.
    pub open spec fn bind(self, vc: usize, product: ProductReference, generator: Option<Jacobian>) -> CircuitModel {
        let list = self.bound[vc as int];
        CircuitModel {
            bound: self.bound.update(
                vc as int,
                list.insert(insert_position(list, product) as int, (product, generator)),
            ),
            ..self
        }
    }
}

/// The constraint `1 a = 0` for a zero constant, and `k^-1 a = 1` for any
/// other, with `inverse` for `k^-1`.
pub open spec fn constant_constraint(a: ProductReference, k: nat, inverse: nat) -> ConstraintModel {
    if k == 0 {
        ConstraintModel::empty("constant_equality"@).weight(a, 1)
    } else {
        ConstraintModel { c: 1, ..ConstraintModel::empty("constant_equality"@).weight(a, inverse) }
    }
}

/// The bindings of one vector commitment as values of contracts.
pub open spec fn bindings_model(list: Seq<Binding>) -> Seq<(ProductReference, Option<Jacobian>)> {
    Seq::new(list.len(), |i: int| (list[i].product, optional_point(list[i].generator)))
}

/// A circuit under construction.
pub struct Circuit {
    pub(crate) g: Point,
    pub(crate) h: Point,
    pub(crate) g_bold1: Vec<Point>,
    pub(crate) g_bold2: Vec<Point>,
    pub(crate) h_bold1: Vec<Point>,
    pub(crate) h_bold2: Vec<Point>,
    pub(crate) prover: bool,
    pub(crate) commitments: usize,
    pub(crate) variables: Vec<Variable>,
    pub(crate) products: Vec<Product>,
    pub(crate) bound_products: Vec<Vec<Binding>>,
    pub(crate) finalized_commitments: Vec<Option<Option<Scalar>>>,
    pub(crate) vector_commitments: Option<Vec<Point>>,
    pub(crate) constraints: Vec<Constraint>,
}

impl View for Circuit {
    type V = CircuitModel;

    closed spec fn view(&self) -> CircuitModel {
        CircuitModel {
            prover: self.prover,
            variables: Seq::new(self.variables@.len(), |i: int| self.variables@[i]@),
            products: self.products@,
            bound: Seq::new(self.bound_products@.len(), |i: int| bindings_model(self.bound_products@[i]@)),
            finalized: Seq::new(
                self.finalized_commitments@.len(),
                |i: int|
                    match self.finalized_commitments@[i] {
                        Some(blind) => Some(optional_value(blind)),
                        None => None,
                    },
            ),
            vector_commitments: match self.vector_commitments {
                Some(v) => Some(crate::vector::coordinates(v@)),
                None => None,
            },
            constraints: Seq::new(self.constraints@.len(), |i: int| self.constraints@[i]@),
            g: self.g@,
            h: self.h@,
            g_bold1: crate::vector::coordinates(self.g_bold1@),
            g_bold2: crate::vector::coordinates(self.g_bold2@),
            h_bold1: crate::vector::coordinates(self.h_bold1@),
            h_bold2: crate::vector::coordinates(self.h_bold2@),
        }
    }
}

/// Appending a variable that is not a committed input leaves the number
/// of committed inputs as it was; appending a committed input adds one.
pub proof fn lemma_count_push(variables: Seq<VariableModel>, v: VariableModel)
    ensures
        committed_count(variables.push(v), variables.len() + 1) == committed_count(variables, variables.len()) + (
        if v is Committed {
            1nat
        } else {
            0nat
        }),
{
    lemma_count_prefix(variables, v, variables.len());
}

/// The count over a prefix does not see what was appended.
pub proof fn lemma_count_prefix(variables: Seq<VariableModel>, v: VariableModel, n: nat)
    requires
        n <= variables.len(),
    ensures
        committed_count(variables.push(v), n) == committed_count(variables, n),
    decreases n,
{
    if n > 0 {
        lemma_count_prefix(variables, v, (n - 1) as nat);
    }
}

/// A well-formed circuit stays well-formed when a variable is appended
/// that has a value exactly in a prover's circuit.
pub proof fn lemma_push_variable(m: CircuitModel, v: VariableModel)
    requires
        m.well_formed(),
        match v {
            VariableModel::Secret(x) => (x is Some) == m.prover,
            VariableModel::Committed(c, _) => (c is Some) == m.prover,
            VariableModel::Product(_, _) => false,
        },
    ensures
        m.push_variable(v).well_formed(),
        forall|a: usize| m.operand(a) ==> m.push_variable(v).operand(a),
{
    let n = m.push_variable(v);
    lemma_count_push(m.variables, v);
    assert forall|i: int| 0 <= i < n.variables.len() implies #[trigger] n.variable_ok(i) by {
        if i < m.variables.len() {
            assert(m.variable_ok(i));
        }
    }
    assert forall|p: int| 0 <= p < n.products.len() implies #[trigger] n.product_ok(p) by {
        assert(m.product_ok(p));
    }
    assert forall|vc: int, k: int| 0 <= vc < n.bound.len() && 0 <= k < n.bound[vc].len() implies n.reference_ok(
        (#[trigger] n.bound[vc][k]).0,
    ) by {
        assert(m.reference_ok(m.bound[vc][k].0));
    }
    assert forall|c: int| 0 <= c < n.constraints.len() implies n.constraint_fits(#[trigger] n.constraints[c]) by {
        assert(m.constraint_fits(m.constraints[c]));
    }
}

/// A well-formed circuit stays well-formed when a constraint that fits it
/// is appended.
pub proof fn lemma_constrain(m: CircuitModel, c: ConstraintModel)
    requires
        m.well_formed(),
        m.constraint_fits(c),
    ensures
        m.constrain(c).well_formed(),
{
    let n = m.constrain(c);
    assert forall|i: int| 0 <= i < n.variables.len() implies #[trigger] n.variable_ok(i) by {
        assert(m.variable_ok(i));
    }
    assert forall|p: int| 0 <= p < n.products.len() implies #[trigger] n.product_ok(p) by {
        assert(m.product_ok(p));
    }
    assert forall|vc: int, k: int| 0 <= vc < n.bound.len() && 0 <= k < n.bound[vc].len() implies n.reference_ok(
        (#[trigger] n.bound[vc][k]).0,
    ) by {
        assert(m.reference_ok(m.bound[vc][k].0));
    }
    assert forall|i: int| 0 <= i < n.constraints.len() implies n.constraint_fits(#[trigger] n.constraints[i]) by {
        if i < m.constraints.len() {
            assert(m.constraint_fits(m.constraints[i]));
        }
    }
}

/// A well-formed circuit stays well-formed when a variable's weights are
/// given to a role of one of its products.
pub proof fn lemma_settle(m: CircuitModel, v: usize, r: ProductReference)
    requires
        m.well_formed(),
        r.product_model() < m.products.len(),
    ensures
        m.settle(v, r, true).well_formed(),
{
    let n = m.settle(v, r, true);
    assert forall|i: int| 0 <= i < n.variables.len() implies #[trigger] n.variable_ok(i) by {
        assert(m.variable_ok(i));
    }
    assert forall|p: int| 0 <= p < n.products.len() implies #[trigger] n.product_ok(p) by {
        assert(m.product_ok(p));
    }
    assert forall|vc: int, k: int| 0 <= vc < n.bound.len() && 0 <= k < n.bound[vc].len() implies n.reference_ok(
        (#[trigger] n.bound[vc][k]).0,
    ) by {
        assert(m.reference_ok(m.bound[vc][k].0));
    }
    assert forall|i: int| 0 <= i < n.constraints.len() implies n.constraint_fits(#[trigger] n.constraints[i]) by {
        let c = m.constraints[i];
        assert(m.constraint_fits(c));
        match find_weight(c.wf, v) {
            Some(at) => {
                let moved = ConstraintModel { wf: c.wf.remove(at), ..c };
                assert(m.constraint_fits(moved));
                lemma_weight_fits(m, moved, r, c.wf[at].1);
            },
            None => {},
        }
    }
}

/// Giving a weight to an index below `n` keeps a row below `n`.
pub proof fn lemma_accumulate_below(row: Seq<(usize, nat)>, id: usize, weight: nat, n: nat)
    requires
        row_below(row, n),
        id < n,
    ensures
        row_below(accumulate_model(row, id, weight), n),
{
    let next = accumulate_model(row, id, weight);
    lemma_find_weight_in_range(row, id);
    assert forall|i: int| 0 <= i < next.len() implies (#[trigger] next[i]).0 < n by {
        if i < row.len() {
            assert(row[i].0 < n);
        }
    }
}

/// A position that was found lies in the row.
pub proof fn lemma_find_weight_in_range(row: Seq<(usize, nat)>, id: usize)
    ensures
        find_weight(row, id) is Some ==> 0 <= find_weight(row, id)->Some_0 < row.len(),
    decreases row.len(),
{
    if row.len() > 0 {
        lemma_find_weight_in_range(row.drop_last(), id);
    }
}

/// A constraint that fits a circuit still fits after a weight was given
/// to a product of the circuit.
pub proof fn lemma_weight_fits(m: CircuitModel, c: ConstraintModel, r: ProductReference, weight: nat)
    requires
        m.constraint_fits(c),
        r.product_model() < m.products.len(),
    ensures
        m.constraint_fits(c.weight(r, weight)),
{
    match r {
        ProductReference::Left { product: id, .. } => lemma_accumulate_below(c.wl, id, weight, m.products.len()),
        ProductReference::Right { product: id, .. } => lemma_accumulate_below(c.wr, id, weight, m.products.len()),
        ProductReference::Output { product: id, .. } => lemma_accumulate_below(c.wo, id, weight, m.products.len()),
    }
}


/// The count of committed inputs is at most the number of variables
/// counted over.
pub proof fn lemma_count_bound(variables: Seq<VariableModel>, n: nat)
    ensures
        committed_count(variables, n) <= n,
    decreases n,
{
    if n > 0 {
        lemma_count_bound(variables, (n - 1) as nat);
    }
}

/// A product found among the first `n` products is the product found among all.
pub proof fn lemma_find_product_extends(products: Seq<Product>, a: usize, b: usize, n: nat)
    requires
        n <= products.len(),
        find_product(products.take(n as int), a, b) is Some,
    ensures
        find_product(products, a, b) == find_product(products.take(n as int), a, b),
    decreases products.len() - n,
{
    if n < products.len() {
        assert(products.take(n as int + 1).drop_last() =~= products.take(n as int));
        lemma_find_product_extends(products, a, b, n + 1);
    } else {
        assert(products.take(n as int) =~= products);
    }
}

/// A product that was found lies among the products and multiplies the
/// two variables.
pub proof fn lemma_find_product(products: Seq<Product>, a: usize, b: usize)
    ensures
        find_product(products, a, b) is Some ==> {
            let p = find_product(products, a, b)->Some_0;
            &&& 0 <= p < products.len()
            &&& products[p].left == a
            &&& products[p].right == b
        },
    decreases products.len(),
{
    if products.len() > 0 {
        lemma_find_product(products.drop_last(), a, b);
    }
}

/// A use that was found lies among the products.
pub proof fn lemma_find_use(products: Seq<Product>, v: usize)
    ensures
        find_use(products, v) is Some ==> 0 <= find_use(products, v)->Some_0 < products.len(),
    decreases products.len(),
{
    if products.len() > 0 {
        lemma_find_use(products.drop_last(), v);
    }
}

/// A use found among the first `n` products is the use found among all.
pub proof fn lemma_find_use_extends(products: Seq<Product>, v: usize, n: nat)
    requires
        n <= products.len(),
        find_use(products.take(n as int), v) is Some,
    ensures
        find_use(products, v) == find_use(products.take(n as int), v),
    decreases products.len() - n,
{
    if n < products.len() {
        assert(products.take(n as int + 1).drop_last() =~= products.take(n as int));
        lemma_find_use_extends(products, v, n + 1);
    } else {
        assert(products.take(n as int) =~= products);
    }
}

/// A variable that no product multiplies has no use among the products.
pub proof fn lemma_unused_find(products: Seq<Product>, v: usize)
    requires
        forall|p: int| 0 <= p < products.len() ==> (#[trigger] products[p]).left != v && products[p].right != v,
    ensures
        find_use(products, v) is None,
    decreases products.len(),
{
    if products.len() > 0 {
        let rest = products.drop_last();
        assert forall|p: int| 0 <= p < rest.len() implies (#[trigger] rest[p]).left != v && rest[p].right != v by {
            assert(rest[p] == products[p]);
        }
        lemma_unused_find(rest, v);
        assert(products.last() == products[products.len() - 1]);
    }
}

/// No product of a well-formed circuit multiplies a variable that the
/// circuit does not have yet.
pub proof fn lemma_fresh_unused(m: CircuitModel, v: usize)
    requires
        m.well_formed(),
        v >= m.variables.len(),
    ensures
        m.unused(v),
{
    assert forall|p: int| 0 <= p < m.products.len() implies (#[trigger] m.products[p]).left != v
        && m.products[p].right != v by {
        assert(m.product_ok(p));
    }
}

/// A product relationship of two other variables multiplies no variable
/// that was multiplied by none before, and leaves the variables that
/// were there as they were.
pub proof fn lemma_product_unused(m: CircuitModel, a: usize, b: usize, v: usize)
    requires
        m.unused(v),
        a != v,
        b != v,
    ensures
        m.product(a, b).unused(v),
        m.product(a, b).variables.len() >= m.variables.len(),
        forall|i: int| 0 <= i < m.variables.len() ==> m.product(a, b).variables[i] == m.variables[i],
{
    let n = m.product(a, b);
    assert forall|p: int| 0 <= p < n.products.len() implies (#[trigger] n.products[p]).left != v
        && n.products[p].right != v by {
        if p < m.products.len() {
            assert(n.products[p] == m.products[p]);
        }
    }
}

/// A secret or committed variable that no product multiplies is in use
/// in no role.
pub proof fn lemma_unused_not_in_use(m: CircuitModel, v: usize)
    requires
        m.unused(v),
        v < m.variables.len(),
        !(m.variables[v as int] is Product),
    ensures
        m.variable_to_product(v) is None,
{
    lemma_unused_find(m.products, v);
}

/// In a well-formed circuit, the role in which a variable is used names a
/// product of the circuit.
pub proof fn lemma_variable_to_product(m: CircuitModel, v: usize)
    requires
        m.well_formed(),
        v < m.variables.len(),
    ensures
        m.variable_to_product(v) is Some ==> m.variable_to_product(v)->Some_0.product_model() < m.products.len(),
{
    assert(m.variable_ok(v as int));
    lemma_find_use(m.products, v);
}

/// A well-formed circuit stays well-formed when a product over two operands
/// is appended together with the variable for its output.
pub proof fn lemma_push_product(m: CircuitModel, a: usize, b: usize)
    requires
        m.well_formed(),
        m.operand(a),
        m.operand(b),
        m.prover ==> m.variables[a as int].value() is Some && m.variables[b as int].value() is Some,
        m.products.len() < usize::MAX,
        m.variables.len() < usize::MAX,
    ensures
        ({
            let grown = CircuitModel {
                products: m.products.push(
                    Product { left: a, right: b, variable: m.variables.len() as usize },
                ),
                variables: m.variables.push(
                    VariableModel::Product(m.products.len(), m.product_value(a, b)),
                ),
                ..m
            };
            &&& grown.well_formed()
            &&& grown.commitments() == m.commitments()
            &&& forall|x: usize| m.operand(x) ==> grown.operand(x)
        }),
{
    let v = VariableModel::Product(m.products.len(), m.product_value(a, b));
    let n = CircuitModel {
        products: m.products.push(Product { left: a, right: b, variable: m.variables.len() as usize }),
        variables: m.variables.push(v),
        ..m
    };
    lemma_count_push(m.variables, v);
    assert forall|i: int| 0 <= i < n.variables.len() implies #[trigger] n.variable_ok(i) by {
        if i < m.variables.len() {
            assert(m.variable_ok(i));
        }
    }
    assert forall|p: int| 0 <= p < n.products.len() implies #[trigger] n.product_ok(p) by {
        if p < m.products.len() {
            assert(m.product_ok(p));
        }
    }
    assert forall|vc: int, k: int| 0 <= vc < n.bound.len() && 0 <= k < n.bound[vc].len() implies n.reference_ok(
        (#[trigger] n.bound[vc][k]).0,
    ) by {
        assert(m.reference_ok(m.bound[vc][k].0));
    }
    assert forall|c: int| 0 <= c < n.constraints.len() implies n.constraint_fits(#[trigger] n.constraints[c]) by {
        assert(m.constraint_fits(m.constraints[c]));
    }
}

fn find_index(row: &Vec<(usize, Scalar)>, id: usize) -> (r: Option<usize>)
    ensures
        match r {
            Some(k) => find_weight(weights_model(row@), id) == Some(k as int) && k < row@.len(),
            None => find_weight(weights_model(row@), id) is None,
        },
{
    let ghost model = weights_model(row@);
    let mut k: usize = 0;
    while k < row.len()
        invariant
            k <= row.len(),
            model == weights_model(row@),
            find_weight(model.take(k as int), id) is None,
        decreases row.len() - k,
    {
        proof {
            assert(model.take(k as int + 1).drop_last() =~= model.take(k as int));
            assert(model[k as int] == (row@[k as int].0, row@[k as int].1@));
            assert(model.take(k as int + 1).last() == model[k as int]);
        }
        if row[k].0 == id {
            proof {
                assert(find_weight(model.take(k as int + 1), id) == Some(k as int));
                lemma_find_weight_extends(model, id, k as nat + 1);
            }
            return Some(k);
        }
        k += 1;
    }
    proof {
        assert(model.take(k as int) =~= model);
    }
    None
}

fn copy_weights(row: &Vec<(usize, Scalar)>) -> (r: Vec<(usize, Scalar)>)
    ensures
        r@ == row@,
{
    let mut out: Vec<(usize, Scalar)> = Vec::new();
    let mut i: usize = 0;
    while i < row.len()
        invariant
            i <= row.len(),
            out@ == row@.take(i as int),
        decreases row.len() - i,
    {
        out.push(row[i]);
        assert(row@.take(i as int + 1) =~= row@.take(i as int).push(row@[i as int]));
        i += 1;
    }
    assert(row@.take(row.len() as int) =~= row@);
    out
}

impl Constraint {
    /// Gives a weight to a variable that no product uses yet.
    pub(crate) fn weight_variable(&mut self, v: usize, weight: Scalar)
        ensures
            final(self)@ == old(self)@.weight_variable(v, weight@),
    {
        accumulate(&mut self.wf, v, weight);
    }

    /// Gives the weight that the constraint has for variable `v`, if any,
    /// to the role `r`.
    pub(crate) fn settle(&mut self, v: usize, r: ProductReference)
        ensures
            final(self)@ == old(self)@.settle(v, r),
    {
        let ghost before = self@;
        match find_index(&self.wf, v) {
            Some(k) => {
                let ghost row = weights_model(self.wf@);
                let (_, weight) = self.wf.remove(k);
                proof {
                    assert(weights_model(self.wf@) =~= row.remove(k as int));
                    assert(weight@ == row[k as int].1);
                    assert(self@ == (ConstraintModel { wf: before.wf.remove(k as int), ..before }));
                }
                self.weight(r, weight);
            },
            None => {},
        }
    }

    /// A copy of the constraint.
    pub fn copy(&self) -> (r: Constraint)
        ensures
            r@ == self@,
    {
        Constraint {
            label: self.label,
            wl: copy_weights(&self.wl),
            wr: copy_weights(&self.wr),
            wo: copy_weights(&self.wo),
            wv: copy_weights(&self.wv),
            wf: copy_weights(&self.wf),
            c: self.c,
        }
    }

    /// The view of a constraint, field by field.
    pub(crate) proof fn view_facts(&self)
        ensures
            self@.label == self.label@,
            self@.wl == weights_model(self.wl@),
            self@.wr == weights_model(self.wr@),
            self@.wo == weights_model(self.wo@),
            self@.wv == weights_model(self.wv@),
            self@.wf == weights_model(self.wf@),
            self@.c == self.c@,
    {
    }
}

impl Circuit {
    /// The view of a circuit, field by field.
    pub(crate) proof fn view_facts(&self)
        ensures
            self@.prover == self.prover,
            self@.variables == Seq::new(self.variables@.len(), |i: int| self.variables@[i]@),
            self@.products == self.products@,
            self@.bound == Seq::new(
                self.bound_products@.len(),
                |i: int| bindings_model(self.bound_products@[i]@),
            ),
            self@.constraints == Seq::new(self.constraints@.len(), |i: int| self.constraints@[i]@),
            self@.finalized.len() == self.finalized_commitments@.len(),
            self@.g == self.g@,
            self@.h == self.h@,
            self@.g_bold1 == crate::vector::coordinates(self.g_bold1@),
            self@.g_bold2 == crate::vector::coordinates(self.g_bold2@),
            self@.h_bold1 == crate::vector::coordinates(self.h_bold1@),
            self@.h_bold2 == crate::vector::coordinates(self.h_bold2@),
            self.well_formed() ==> self@.well_formed() && self.commitments == self@.commitments(),
    {
    }

    /// The content of a well-formed circuit is well-formed.
    pub proof fn content_is_well_formed(&self)
        requires
            self.well_formed(),
        ensures
            self@.well_formed(),
    {
    }

    /// The view of the record of one vector commitment's finalization.
    pub(crate) proof fn finalized_view(&self, vc: usize)
        requires
            vc < self.finalized_commitments@.len(),
        ensures
            self@.finalized.len() == self.finalized_commitments@.len(),
            self@.finalized[vc as int] == match self.finalized_commitments@[vc as int] {
                Some(blind) => Some(optional_value(blind)),
                None => None,
            },
    {
    }

    /// The view of the vector commitments that a verifier's circuit was
    /// made with.
    pub(crate) proof fn vector_commitments_view(&self)
        ensures
            self@.vector_commitments == match self.vector_commitments {
                Some(v) => Some(crate::vector::coordinates(v@)),
                None => None,
            },
    {
    }

    /// The invariant of a circuit: that of its content, and that its
    /// counter of committed inputs counts them.
    pub closed spec fn well_formed(&self) -> bool {
        self@.well_formed() && self.commitments == self@.commitments()
    }

    /// A circuit with no variables, for a prover if no vector commitments
    /// are given and for a verifier if they are.
    pub fn new(
        g: Point,
        h: Point,
        g_bold1: Vec<Point>,
        g_bold2: Vec<Point>,
        h_bold1: Vec<Point>,
        h_bold2: Vec<Point>,
        prover: bool,
        vector_commitments: Option<Vec<Point>>,
    ) -> (r: Circuit)
        requires
            prover == (vector_commitments is None),
        ensures
            r.well_formed(),
            r@.prover == prover,
            r@.variables.len() == 0,
            r@.products.len() == 0,
            r@.bound.len() == 0,
            r@.constraints.len() == 0,
            r@.g == g@,
            r@.h == h@,
            r@.g_bold1 == crate::vector::coordinates(g_bold1@),
            r@.g_bold2 == crate::vector::coordinates(g_bold2@),
            r@.h_bold1 == crate::vector::coordinates(h_bold1@),
            r@.h_bold2 == crate::vector::coordinates(h_bold2@),
            r@.vector_commitments == match vector_commitments {
                Some(v) => Some(crate::vector::coordinates(v@)),
                None => None,
            },
    {
        Circuit {
            g,
            h,
            g_bold1,
            g_bold2,
            h_bold1,
            h_bold2,
            prover,
            commitments: 0,
            variables: Vec::new(),
            products: Vec::new(),
            bound_products: Vec::new(),
            finalized_commitments: Vec::new(),
            vector_commitments,
            constraints: Vec::new(),
        }
    }

    /// Whether the circuit is a prover's.
    pub fn prover(&self) -> (r: bool)
        ensures
            r == self@.prover,
    {
        self.prover
    }

    /// The generator that blinds.
    pub fn h(&self) -> (r: Point)
        ensures
            r@ == self@.h,
    {
        self.h
    }

    /// The value of a variable that is not a committed input.
    pub fn unchecked_value(&self, variable: VariableReference) -> (r: Option<Scalar>)
        requires
            self@.operand(variable.0),
        ensures
            optional_value(r) == self@.variables[variable.0 as int].value(),
    {
        self.variables[variable.0].value()
    }

    /// The variable that a reference names.
    pub fn variable(&self, product: ProductReference) -> (r: VariableReference)
        ensures
            r.0 == product.variable_model(),
    {
        match product {
            ProductReference::Left { variable, .. } => VariableReference(variable),
            ProductReference::Right { variable, .. } => VariableReference(variable),
            ProductReference::Output { variable, .. } => VariableReference(variable),
        }
    }

    /// The role in which a variable is used by a product, if it is used.
    pub fn variable_to_product(&self, variable: VariableReference) -> (r: Option<ProductReference>)
        requires
            variable.0 < self@.variables.len(),
        ensures
            r == self@.variable_to_product(variable.0),
    {
        match self.variables[variable.0] {
            Variable::Product(product, _) => {
                return Some(ProductReference::Output { product, variable: variable.0 });
            },
            _ => {},
        }
        let mut id: usize = 0;
        while id < self.products.len()
            invariant
                id <= self.products.len(),
                variable.0 < self.variables@.len(),
                !(self.variables@[variable.0 as int] is Product),
                find_use(self.products@.take(id as int), variable.0) is None,
            decreases self.products.len() - id,
        {
            proof {
                assert(self.products@.take(id as int + 1).drop_last() =~= self.products@.take(id as int));
                assert(self.products@.take(id as int + 1).last() == self.products@[id as int]);
            }
            let gate = self.products[id];
            if variable.0 == gate.left || variable.0 == gate.right {
                proof {
                    assert(find_use(self.products@.take(id as int + 1), variable.0) == Some(id as int));
                    lemma_find_use_extends(self.products@, variable.0, id as nat + 1);
                }
                if variable.0 == gate.left {
                    return Some(ProductReference::Left { product: id, variable: gate.left });
                } else {
                    return Some(ProductReference::Right { product: id, variable: gate.right });
                }
            }
            id += 1;
        }
        proof {
            assert(self.products@.take(id as int) =~= self.products@);
        }
        None
    }

    /// Appends a constraint.
    pub fn constrain(&mut self, constraint: Constraint)
        requires
            old(self).well_formed(),
            old(self)@.constraint_fits(constraint@),
        ensures
            final(self).well_formed(),
            final(self)@ == old(self)@.constrain(constraint@),
    {
        let ghost before = self@;
        self.constraints.push(constraint);
        proof {
            lemma_constrain(before, constraint@);
            assert(self@.constraints =~= before.constraints.push(constraint@));
            assert(self@ == before.constrain(constraint@));
        }
    }

    /// Constrains two roles to hold one value.
    pub fn constrain_equality(&mut self, a: ProductReference, b: ProductReference)
        requires
            old(self).well_formed(),
            a.product_model() < old(self)@.products.len(),
            b.product_model() < old(self)@.products.len(),
        ensures
            final(self).well_formed(),
            final(self)@ == old(self)@.constrain_equality(a, b),
    {
        if a == b {
            return ;
        }
        let mut constraint = Constraint::new("equality");
        constraint.weight(a, Scalar::one());
        constraint.weight(b, Scalar::one().neg());
        proof {
            let empty = ConstraintModel::empty("equality"@);
            assert(self@.constraint_fits(empty));
            lemma_weight_fits(self@, empty, a, 1);
            lemma_weight_fits(self@, empty.weight(a, 1), b, ssub(0, 1));
        }
        self.constrain(constraint);
    }

    /// Constrains a role to hold a constant.
    pub fn equals_constant(&mut self, a: ProductReference, b: Scalar)
        requires
            old(self).well_formed(),
            a.product_model() < old(self)@.products.len(),
        ensures
            final(self).well_formed(),
            final(self)@ == old(self)@.constrain(
                constant_constraint(
                    a,
                    b@,
                    crate::modular::pow_mod(
                        b@,
                        (crate::scalar::modulus() - 2) as nat,
                        crate::scalar::modulus(),
                    ),
                ),
            ),
    {
        let mut constraint = Constraint::new("constant_equality");
        proof {
            assert(self@.constraint_fits(ConstraintModel::empty("constant_equality"@)));
        }
        match b.invert() {
            None => {
                constraint.weight(a, Scalar::one());
                proof {
                    lemma_weight_fits(self@, ConstraintModel::empty("constant_equality"@), a, 1);
                }
            },
            Some(inverse) => {
                constraint.weight(a, inverse);
                constraint.rhs_offset(Scalar::one());
                proof {
                    lemma_weight_fits(self@, ConstraintModel::empty("constant_equality"@), a, inverse@);
                }
            },
        }
        self.constrain(constraint);
    }

    /// Adds an input that only the prover knows.
    pub fn add_secret_input(&mut self, value: Option<Scalar>) -> (r: VariableReference)
        requires
            old(self).well_formed(),
            old(self)@.prover == (value is Some),
        ensures
            final(self).well_formed(),
            final(self)@ == old(self)@.push_variable(VariableModel::Secret(optional_value(value))),
            r.0 == old(self)@.variables.len(),
            final(self)@.operand(r.0),
            forall|a: usize| old(self)@.operand(a) ==> final(self)@.operand(a),
    {
        let ghost before = self@;
        let res = VariableReference(self.variables.len());
        self.variables.push(Variable::Secret(value));
        proof {
            let v = VariableModel::Secret(optional_value(value));
            lemma_push_variable(before, v);
            lemma_count_push(before.variables, v);
            assert(self@.variables =~= before.variables.push(v));
            assert(self@ == before.push_variable(v));
        }
        res
    }

    /// Adds an input that is committed to in public. The prover gives the
    /// opening, which must open the commitment; the verifier gives none.
    pub fn add_committed_input(&mut self, commitment: Option<Commitment>, actual: Point) -> (r: CommitmentReference)
        requires
            old(self).well_formed(),
            old(self)@.prover == (commitment is Some),
            commitment is Some ==> same_point(
                commitment_model(
                    commitment->Some_0.value@,
                    commitment->Some_0.mask@,
                    old(self)@.g,
                    old(self)@.h,
                ),
                actual@,
            ),
        ensures
            final(self).well_formed(),
            final(self)@ == old(self)@.push_variable((Variable::Committed(commitment, actual))@),
            r.0 == old(self)@.commitments(),
            forall|a: usize| old(self)@.operand(a) ==> final(self)@.operand(a),
    {
        let ghost before = self@;
        let res = CommitmentReference(self.commitments);
        assert(self.commitments == before.commitments());
        self.variables.push(Variable::Committed(commitment, actual));
        let grown = self.variables.len();
        assert(grown == before.variables.len() + 1);
        proof {
            let v = (Variable::Committed(commitment, actual))@;
            lemma_push_variable(before, v);
            lemma_count_push(before.variables, v);
            lemma_count_bound(before.variables, before.variables.len());
            assert(self@.variables =~= before.variables.push(v));
            assert(self@ == before.push_variable(v));
        }
        self.commitments = self.commitments + 1;
        res
    }

    /// Gives the role `r` to variable `v` in every constraint that weighs
    /// it.
    fn settle(&mut self, v: usize, r: ProductReference)
        requires
            old(self).well_formed(),
            r.product_model() < old(self)@.products.len(),
        ensures
            final(self).well_formed(),
            final(self)@ == old(self)@.settle(v, r, true),
    {
        let ghost before = self@;
        let mut settled: Vec<Constraint> = Vec::new();
        let mut k: usize = 0;
        while k < self.constraints.len()
            invariant
                k <= self.constraints.len(),
                self@ == before,
                self.well_formed(),
                before.well_formed(),
                r.product_model() < before.products.len(),
                settled@.len() == k,
                forall|i: int| 0 <= i < k ==> (#[trigger] settled@[i])@ == before.constraints[i].settle(v, r),
                forall|i: int| 0 <= i < k ==> before.constraint_fits((#[trigger] settled@[i])@),
            decreases self.constraints.len() - k,
        {
            proof {
                self.view_facts();
                assert(before.constraints[k as int] == self.constraints@[k as int]@);
                assert(before.constraint_fits(before.constraints[k as int]));
            }
            let mut constraint = self.constraints[k].copy();
            constraint.settle(v, r);
            proof {
                let c = before.constraints[k as int];
                match find_weight(c.wf, v) {
                    Some(at) => {
                        let moved = ConstraintModel { wf: c.wf.remove(at), ..c };
                        assert(before.constraint_fits(moved));
                        lemma_weight_fits(before, moved, r, c.wf[at].1);
                    },
                    None => {},
                }
            }
            settled.push(constraint);
            k += 1;
        }
        self.constraints = settled;
        proof {
            let after = before.settle(v, r, true);
            assert(self@.constraints =~= after.constraints);
            assert(self@ == after);
            lemma_settle(before, v, r);
        }
    }

    /// Appends a constraint that also weighs a variable. If a product
    /// uses the variable, the weight goes to that role. If none does, the
    /// weight stays on the variable, and goes to the role that the
    /// variable gets when [`Circuit::product`] first uses it; a circuit
    /// in which it never gets one does not compile.
    pub fn constrain_variable(&mut self, constraint: Constraint, variable: VariableReference, weight: Scalar)
        requires
            old(self).well_formed(),
            old(self)@.constraint_fits(constraint@),
            variable.0 < old(self)@.variables.len(),
        ensures
            final(self).well_formed(),
            final(self)@ == old(self)@.constrain_variable(constraint@, variable.0, weight@),
    {
        let ghost before = self@;
        proof {
            lemma_variable_to_product(before, variable.0);
        }
        let mut constraint = constraint;
        match self.variable_to_product(variable) {
            Some(r) => {
                proof {
                    lemma_weight_fits(before, constraint@, r, weight@);
                }
                constraint.weight(r, weight);
            },
            None => {
                constraint.weight_variable(variable.0, weight);
            },
        }
        self.constrain(constraint);
    }

    /// Uses two variables in a product relationship, and returns the
    /// references to its left, right and output and the output's variable.
    pub fn product(&mut self, a: VariableReference, b: VariableReference) -> (r: (
        (ProductReference, ProductReference, ProductReference),
        VariableReference,
    ))
        requires
            old(self).well_formed(),
            old(self)@.operand(a.0),
            old(self)@.operand(b.0),
        ensures
            final(self).well_formed(),
            final(self)@ == old(self)@.product(a.0, b.0),
            r == old(self)@.product_references(a.0, b.0),
            final(self)@.operand(r.1.0),
            final(self)@.reference_ok(r.0.0),
            final(self)@.reference_ok(r.0.1),
            final(self)@.reference_ok(r.0.2),
            forall|x: usize| old(self)@.operand(x) ==> final(self)@.operand(x),
            forall|x: ProductReference| old(self)@.reference_ok(x) ==> final(self)@.reference_ok(x),
    {
        let ghost before = self@;
        let mut id: usize = 0;
        while id < self.products.len()
            invariant
                id <= self.products.len(),
                self@ == before,
                self.well_formed(),
                before.well_formed(),
                find_product(self.products@.take(id as int), a.0, b.0) is None,
            decreases self.products.len() - id,
        {
            proof {
                assert(self.products@.take(id as int + 1).drop_last() =~= self.products@.take(id as int));
                assert(self.products@.take(id as int + 1).last() == self.products@[id as int]);
            }
            let gate = self.products[id];
            if a.0 == gate.left && b.0 == gate.right {
                proof {
                    assert(find_product(self.products@.take(id as int + 1), a.0, b.0) == Some(id as int));
                    lemma_find_product_extends(self.products@, a.0, b.0, id as nat + 1);
                    assert(before.product_ok(id as int));
                    assert(before.variable_ok(gate.variable as int));
                }
                return (
                    (
                        ProductReference::Left { product: id, variable: a.0 },
                        ProductReference::Right { product: id, variable: b.0 },
                        ProductReference::Output { product: id, variable: gate.variable },
                    ),
                    VariableReference(gate.variable),
                );
            }
            id += 1;
        }
        proof {
            assert(self.products@.take(id as int) =~= self.products@);
            assert(before.variable_ok(a.0 as int));
            assert(before.variable_ok(b.0 as int));
            lemma_variable_to_product(before, a.0);
            lemma_variable_to_product(before, b.0);
        }
        let existing_a_use = self.variable_to_product(a);
        let existing_b_use = self.variable_to_product(b);

        let product_id = self.products.len();
        let variable = VariableReference(self.variables.len());
        let products = (
            ProductReference::Left { product: product_id, variable: a.0 },
            ProductReference::Right { product: product_id, variable: b.0 },
            ProductReference::Output { product: product_id, variable: variable.0 },
        );
        let value = if self.prover {
            let left = self.variables[a.0].value();
            let right = self.variables[b.0].value();
            match (left, right) {
                (Some(left), Some(right)) => Some(left.mul(&right)),
                _ => None,
            }
        } else {
            None
        };
        self.products.push(Product { left: a.0, right: b.0, variable: variable.0 });
        self.variables.push(Variable::Product(product_id, value));
        let grown_products = self.products.len();
        let grown_variables = self.variables.len();
        proof {
            assert(grown_products == before.products.len() + 1);
            assert(grown_variables == before.variables.len() + 1);
            lemma_push_product(before, a.0, b.0);
            let v = VariableModel::Product(before.products.len(), before.product_value(a.0, b.0));
            assert(self@.variables =~= before.variables.push(v));
            let grown = CircuitModel {
                products: before.products.push(Product { left: a.0, right: b.0, variable: variable.0 }),
                variables: before.variables.push(v),
                ..before
            };
            assert(self@ == grown);
        }
        match existing_a_use {
            Some(existing) => self.constrain_equality(products.0, existing),
            None => {},
        }
        match existing_b_use {
            Some(existing) => self.constrain_equality(products.1, existing),
            None => {},
        }
        if existing_a_use.is_none() {
            self.settle(a.0, products.0);
        }
        if existing_b_use.is_none() && a.0 != b.0 {
            self.settle(b.0, products.1);
        }
        (products, variable)
    }

    /// Allocates a vector commitment with nothing bound to it.
    pub fn allocate_vector_commitment(&mut self) -> (r: VectorCommitmentReference)
        requires
            old(self).well_formed(),
        ensures
            final(self).well_formed(),
            final(self)@ == (CircuitModel {
                bound: old(self)@.bound.push(Seq::empty()),
                finalized: old(self)@.finalized.push(None),
                ..old(self)@
            }),
            r.0 == old(self)@.bound.len(),
    {
        let ghost before = self@;
        let res = VectorCommitmentReference(self.bound_products.len());
        self.bound_products.push(Vec::new());
        self.finalized_commitments.push(None);
        proof {
            let n = CircuitModel {
                bound: before.bound.push(Seq::empty()),
                finalized: before.finalized.push(None),
                ..before
            };
            assert(bindings_model(Seq::<Binding>::empty()) =~= Seq::empty());
            assert(self@.bound =~= n.bound);
            assert(self@.finalized =~= n.finalized);
            assert(self@ == n);
            assert forall|i: int| 0 <= i < n.variables.len() implies #[trigger] n.variable_ok(i) by {
                assert(before.variable_ok(i));
            }
            assert forall|p: int| 0 <= p < n.products.len() implies #[trigger] n.product_ok(p) by {
                assert(before.product_ok(p));
            }
            assert forall|vc: int, k: int|
                0 <= vc < n.bound.len() && 0 <= k < n.bound[vc].len() implies n.reference_ok(
                (#[trigger] n.bound[vc][k]).0,
            ) by {
                assert(before.reference_ok(before.bound[vc][k].0));
            }
            assert forall|c: int| 0 <= c < n.constraints.len() implies n.constraint_fits(
                #[trigger] n.constraints[c],
            ) by {
                assert(before.constraint_fits(before.constraints[c]));
            }
            assert forall|v: int, j: int, w: int, k: int|
                0 <= v < n.bound.len() && 0 <= j < n.bound[v].len() && 0 <= w < n.bound.len() && 0 <= k
                    < n.bound[w].len() && (v != w || j != k) implies !(#[trigger] n.bound[v][j]).0.same_role(
                (#[trigger] n.bound[w][k]).0,
            ) by {
                assert(n.bound[v][j] == before.bound[v][j]);
                assert(n.bound[w][k] == before.bound[w][k]);
            }
        }
        res
    }
}


/// The place of a key in a list is the number of entries that were passed
/// over, plus its place in the rest.
pub proof fn lemma_insert_position_step(list: Seq<(ProductReference, Option<Jacobian>)>, key: ProductReference, k: nat)
    requires
        k < list.len(),
        insert_position(list, key) == k + insert_position(list.skip(k as int), key),
        list[k as int].0.before_model(key),
    ensures
        insert_position(list, key) == k + 1 + insert_position(list.skip(k as int + 1), key),
{
    assert(list.skip(k as int).skip(1) =~= list.skip(k as int + 1));
}

impl CircuitModel {
    /// The generator that a binding commits under: its own if it has one,
    /// else the circuit's generator for the role and product of its product.
    pub open spec fn binding_generator(self, binding: (ProductReference, Option<Jacobian>)) -> Jacobian {
        match binding.1 {
            Some(g) => g,
            None => match binding.0 {
                ProductReference::Left { product, .. } => self.g_bold1[product as int],
                ProductReference::Right { product, .. } => self.h_bold1[product as int],
                ProductReference::Output { product, .. } => self.g_bold2[product as int],
            },
        }
    }

    /// Whether the circuit has a generator of each kind for each product.
    pub open spec fn generators_suffice(self) -> bool {
        &&& self.products.len() <= self.g_bold1.len()
        &&& self.products.len() <= self.g_bold2.len()
        &&& self.products.len() <= self.h_bold1.len()
    }

    /// The commitment to the first `n` bindings of a vector commitment
    /// under a blind: `blind h + sum generator_i value_i`, added from the
    /// left.
    pub open spec fn vector_commitment(self, vc: int, blind: nat, n: nat) -> Jacobian
        decreases n,
    {
        if n == 0 {
            mul_model(self.h, blind)
        } else {
            let binding = self.bound[vc][n - 1];
            add_model(
                self.vector_commitment(vc, blind, (n - 1) as nat),
                mul_model(
                    self.binding_generator(binding),
                    self.variables[binding.0.variable_model() as int].value()->Some_0,
                ),
            )
        }
    }

    /// The circuit after a vector commitment was finalized under a blind.
    pub open spec fn finalize(self, vc: usize, blind: Option<nat>) -> CircuitModel {
        CircuitModel { finalized: self.finalized.update(vc as int, Some(blind)), ..self }
    }
}

/// A well-formed circuit stays well-formed when only its record of
/// finalized vector commitments changes.
pub proof fn lemma_finalize(m: CircuitModel, vc: usize, blind: Option<nat>)
    requires
        m.well_formed(),
        vc < m.bound.len(),
    ensures
        m.finalize(vc, blind).well_formed(),
{
    let n = m.finalize(vc, blind);
    assert forall|i: int| 0 <= i < n.variables.len() implies #[trigger] n.variable_ok(i) by {
        assert(m.variable_ok(i));
    }
    assert forall|p: int| 0 <= p < n.products.len() implies #[trigger] n.product_ok(p) by {
        assert(m.product_ok(p));
    }
    assert forall|v: int, k: int| 0 <= v < n.bound.len() && 0 <= k < n.bound[v].len() implies n.reference_ok(
        (#[trigger] n.bound[v][k]).0,
    ) by {
        assert(m.reference_ok(m.bound[v][k].0));
    }
    assert forall|c: int| 0 <= c < n.constraints.len() implies n.constraint_fits(#[trigger] n.constraints[c]) by {
        assert(m.constraint_fits(m.constraints[c]));
    }
}

/// A well-formed circuit stays well-formed when a product of the circuit
/// is bound into one of its vector commitments.
pub proof fn lemma_bind(m: CircuitModel, vc: usize, product: ProductReference, generator: Option<Jacobian>)
    requires
        m.well_formed(),
        vc < m.bound.len(),
        m.reference_ok(product),
        !m.is_bound(product),
    ensures
        m.bind(vc, product, generator).well_formed(),
{
    let n = m.bind(vc, product, generator);
    let list = m.bound[vc as int];
    lemma_insert_position_bound(list, product);
    let pos = insert_position(list, product) as int;
    assert forall|i: int| 0 <= i < n.variables.len() implies #[trigger] n.variable_ok(i) by {
        assert(m.variable_ok(i));
    }
    assert forall|p: int| 0 <= p < n.products.len() implies #[trigger] n.product_ok(p) by {
        assert(m.product_ok(p));
    }
    assert forall|v: int, k: int| 0 <= v < n.bound.len() && 0 <= k < n.bound[v].len() implies n.reference_ok(
        (#[trigger] n.bound[v][k]).0,
    ) by {
        if v == vc {
            if k < pos {
                assert(n.bound[v][k] == list[k]);
                assert(m.reference_ok(m.bound[v][k].0));
            } else if k > pos {
                assert(n.bound[v][k] == list[k - 1]);
                assert(m.reference_ok(m.bound[v][k - 1].0));
            }
        } else {
            assert(m.reference_ok(m.bound[v][k].0));
        }
    }
    assert forall|c: int| 0 <= c < n.constraints.len() implies n.constraint_fits(#[trigger] n.constraints[c]) by {
        assert(m.constraint_fits(m.constraints[c]));
    }
    assert forall|v: int, j: int, w: int, k: int|
        0 <= v < n.bound.len() && 0 <= j < n.bound[v].len() && 0 <= w < n.bound.len() && 0 <= k < n.bound[w].len()
            && (v != w || j != k) implies !(#[trigger] n.bound[v][j]).0.same_role((#[trigger] n.bound[w][k]).0) by {
        // Where each of the two was before the binding, if it was there.
        let j0 = if v == vc && j > pos {
            j - 1
        } else {
            j
        };
        let k0 = if w == vc && k > pos {
            k - 1
        } else {
            k
        };
        let first_new = v == vc && j == pos;
        let second_new = w == vc && k == pos;
        if !first_new {
            assert(n.bound[v][j] == m.bound[v][j0]);
            assert(!bound_in(m.bound[v], product));
            assert(!m.bound[v][j0].0.same_role(product));
        }
        if !second_new {
            assert(n.bound[w][k] == m.bound[w][k0]);
            assert(!bound_in(m.bound[w], product));
            assert(!m.bound[w][k0].0.same_role(product));
        }
        if first_new {
            assert(n.bound[v][j].0 == product);
        }
        if second_new {
            assert(n.bound[w][k].0 == product);
        }
        if !first_new && !second_new {
            assert(v != w || j0 != k0);
            assert(!m.bound[v][j0].0.same_role(m.bound[w][k0].0));
        }
    }
}

/// The place of a key lies within the list or at its end.
pub proof fn lemma_insert_position_bound(list: Seq<(ProductReference, Option<Jacobian>)>, key: ProductReference)
    ensures
        insert_position(list, key) <= list.len(),
    decreases list.len(),
{
    if list.len() > 0 {
        lemma_insert_position_bound(list.skip(1), key);
    }
}

impl Circuit {
    /// Binds a product into a vector commitment, under the given generator
    /// or, if none is given, under the circuit's generator for the product.
    /// A finalized vector commitment takes no more products, and no
    /// product is bound twice.
    pub fn bind(
        &mut self,
        vector_commitment: VectorCommitmentReference,
        product: ProductReference,
        generator: Option<Point>,
    ) -> (r: Result<(), BindError>)
        requires
            old(self).well_formed(),
            vector_commitment.0 < old(self)@.bound.len(),
            old(self)@.reference_ok(product),
        ensures
            final(self).well_formed(),
            match r {
                Err(BindError::Finalized) => old(self)@.finalized[vector_commitment.0 as int] is Some && final(self)@
                    == old(self)@,
                Err(BindError::AlreadyBound) => old(self)@.finalized[vector_commitment.0 as int] is None && old(
                    self,
                )@.is_bound(product) && final(self)@ == old(self)@,
                Ok(()) => old(self)@.finalized[vector_commitment.0 as int] is None && !old(self)@.is_bound(product)
                    && final(self)@ == old(self)@.bind(vector_commitment.0, product, optional_point(generator)),
            },
    {
        let ghost before = self@;
        let vc = vector_commitment.0;
        if self.finalized_commitments[vc].is_some() {
            return Err(BindError::Finalized);
        }
        let mut i: usize = 0;
        while i < self.bound_products.len()
            invariant
                i <= self.bound_products.len(),
                self@ == before,
                self.well_formed(),
                vc < before.bound.len(),
                vc == vector_commitment.0,
                before == old(self)@,
                before.finalized[vc as int] is None,
                forall|v: int| 0 <= v < i ==> !bound_in(#[trigger] before.bound[v], product),
            decreases self.bound_products.len() - i,
        {
            let bucket = &self.bound_products[i];
            let mut k: usize = 0;
            while k < bucket.len()
                invariant
                    k <= bucket.len(),
                    i < self.bound_products.len(),
                    self@ == before,
                    self.well_formed(),
                    vc < before.bound.len(),
                    vc == vector_commitment.0,
                    before == old(self)@,
                    before.finalized[vc as int] is None,
                    *bucket == self.bound_products@[i as int],
                    forall|j: int| 0 <= j < k ==> !(#[trigger] before.bound[i as int][j]).0.same_role(product),
                decreases bucket.len() - k,
            {
                assert(before.bound[i as int][k as int].0 == bucket@[k as int].product);
                if bucket[k].product.role() == product.role() && bucket[k].product.product() == product.product() {
                    assert(bound_in(before.bound[i as int], product));
                    assert(before.is_bound(product));
                    return Err(BindError::AlreadyBound);
                }
                k += 1;
            }
            i += 1;
        }
        let list = &self.bound_products[vc];
        let ghost model = bindings_model(list@);
        let binding = Binding { product, generator };
        let mut next: Vec<Binding> = Vec::new();
        let mut k: usize = 0;
        proof {
            assert(model.skip(0) =~= model);
        }
        while k < list.len() && list[k].product.before(&product)
            invariant
                k <= list.len(),
                model == bindings_model(list@),
                next@ == list@.take(k as int),
                insert_position(model, product) == k + insert_position(model.skip(k as int), product),
            decreases list.len() - k,
        {
            proof {
                assert(model[k as int].0 == list@[k as int].product);
                lemma_insert_position_step(model, product, k as nat);
                assert(list@.take(k as int + 1) =~= list@.take(k as int).push(list@[k as int]));
            }
            next.push(list[k]);
            k += 1;
        }
        let pos = k;
        proof {
            if k < list.len() {
                assert(model.skip(k as int)[0] == model[k as int]);
                assert(model[k as int].0 == list@[k as int].product);
            }
            assert(insert_position(model, product) == pos);
        }
        next.push(binding);
        while k < list.len()
            invariant
                pos <= k <= list.len(),
                next@ == list@.take(pos as int).push(binding) + list@.subrange(pos as int, k as int),
            decreases list.len() - k,
        {
            proof {
                assert(list@.subrange(pos as int, k as int + 1) =~= list@.subrange(pos as int, k as int).push(
                    list@[k as int],
                ));
            }
            next.push(list[k]);
            k += 1;
        }
        proof {
            assert(next@ =~= list@.insert(pos as int, binding));
            assert(bindings_model(next@) =~= model.insert(pos as int, (product, optional_point(generator))));
        }
        self.bound_products.set(vc, next);
        proof {
            let n = before.bind(vc, product, optional_point(generator));
            assert(self@.bound =~= n.bound);
            assert(self@ == n);
            assert(!before.is_bound(product));
            lemma_bind(before, vc, product, optional_point(generator));
        }
        Ok(())
    }

    /// Finalizes a vector commitment, which takes no more products from
    /// then on, and returns it: for a prover, the commitment to the bound
    /// products' values under the blind; for a verifier, the commitment
    /// that the circuit was made with.
    pub fn finalize_commitment(&mut self, vector_commitment: VectorCommitmentReference, blind: Option<Scalar>) -> (r: Point)
        requires
            old(self).well_formed(),
            vector_commitment.0 < old(self)@.bound.len(),
            old(self)@.prover == (blind is Some),
            old(self)@.prover ==> old(self)@.generators_suffice(),
            !old(self)@.prover ==> vector_commitment.0 < old(self)@.vector_commitments->Some_0.len(),
        ensures
            final(self).well_formed(),
            final(self)@ == old(self)@.finalize(vector_commitment.0, optional_value(blind)),
            r@ == if old(self)@.prover {
                old(self)@.vector_commitment(
                    vector_commitment.0 as int,
                    blind->Some_0@,
                    old(self)@.bound[vector_commitment.0 as int].len(),
                )
            } else {
                old(self)@.vector_commitments->Some_0[vector_commitment.0 as int]
            },
    {
        let ghost before = self@;
        let vc = vector_commitment.0;
        let result = match blind {
            Some(blind) => {
                let mut commitment = self.h.mul(&blind);
                let list = &self.bound_products[vc];
                let mut k: usize = 0;
                while k < list.len()
                    invariant
                        k <= list.len(),
                        self@ == before,
                        before.well_formed(),
                        before.prover,
                        before.generators_suffice(),
                        vc < before.bound.len(),
                        *list == self.bound_products@[vc as int],
                        commitment@ == before.vector_commitment(vc as int, blind@, k as nat),
                    decreases list.len() - k,
                {
                    let binding = list[k];
                    proof {
                        assert(before.bound[vc as int][k as int] == (
                            binding.product,
                            optional_point(binding.generator),
                        ));
                        assert(before.reference_ok(before.bound[vc as int][k as int].0));
                        assert(before.variable_ok(binding.product.variable_model() as int));
                    }
                    let (default, variable) = match binding.product {
                        ProductReference::Left { product, variable } => (self.g_bold1[product], variable),
                        ProductReference::Right { product, variable } => (self.h_bold1[product], variable),
                        ProductReference::Output { product, variable } => (self.g_bold2[product], variable),
                    };
                    let generator = match binding.generator {
                        Some(g) => g,
                        None => default,
                    };
                    let value = match self.variables[variable].value() {
                        Some(value) => value,
                        None => Scalar::zero(),
                    };
                    commitment = commitment.add(&generator.mul(&value));
                    k += 1;
                }
                commitment
            },
            None => match &self.vector_commitments {
                Some(commitments) => commitments[vc],
                None => Point::identity(),
            },
        };
        self.finalized_commitments.set(vc, Some(blind));
        proof {
            let n = before.finalize(vc, optional_value(blind));
            assert(self@.finalized =~= n.finalized);
            assert(self@ == n);
            lemma_finalize(before, vc, optional_value(blind));
        }
        result
    }
}


/// A product relationship adds products and takes none away.
pub proof fn lemma_product_grows(m: CircuitModel, a: usize, b: usize)
    ensures
        m.products.len() <= m.product(a, b).products.len(),
{
}

} // verus!
