//! Linear algebra over the scalar field: vectors of scalars, vectors of
//! points, and sparse matrices of scalars.

use vstd::prelude::*;
use vstd::arithmetic::power::{lemma_pow1, pow};
use vstd::arithmetic::div_mod::lemma_small_mod;
use crate::modular::{add_mod, lemma_pow_mod_mul, mul_mod, pow_mod, sub_mod};
use crate::point::{add_model, identity_model, mul_model, Jacobian, Point};
use crate::scalar::{lemma_modulus, modulus, Scalar};

verus! {

/// Scalar sum.
pub open spec fn sadd(a: nat, b: nat) -> nat {
    add_mod(a, b, modulus())
}

/// Scalar difference.
pub open spec fn ssub(a: nat, b: nat) -> nat {
    sub_mod(a, b, modulus())
}

/// Scalar product.
pub open spec fn smul(a: nat, b: nat) -> nat {
    mul_mod(a, b, modulus())
}

/// Scalar power.
pub open spec fn spow(a: nat, e: nat) -> nat {
    pow_mod(a, e, modulus())
}

/// The values of a list of scalars.
pub open spec fn values(s: Seq<Scalar>) -> Seq<nat> {
    Seq::new(s.len(), |i: int| s[i]@)
}

/// The coordinates of a list of points.
pub open spec fn coordinates(p: Seq<Point>) -> Seq<Jacobian> {
    Seq::new(p.len(), |i: int| p[i]@)
}

/// The inner product `sum a_i b_i` of the first `n` entries.
pub open spec fn inner_product_model(a: Seq<nat>, b: Seq<nat>, n: nat) -> nat
    decreases n,
{
    if n == 0 {
        0
    } else {
        sadd(inner_product_model(a, b, (n - 1) as nat), smul(a[n - 1], b[n - 1]))
    }
}

/// The weighted inner product `sum a_i b_i y^(i + 1)` of the first `n`
/// entries.
pub open spec fn weighted_inner_product_model(a: Seq<nat>, b: Seq<nat>, y: nat, n: nat) -> nat
    decreases n,
{
    if n == 0 {
        0
    } else {
        sadd(
            weighted_inner_product_model(a, b, y, (n - 1) as nat),
            smul(smul(a[n - 1], b[n - 1]), spow(y, n)),
        )
    }
}

/// The sum of the first `n` entries.
pub open spec fn sum_model(a: Seq<nat>, n: nat) -> nat
    decreases n,
{
    if n == 0 {
        0
    } else {
        sadd(sum_model(a, (n - 1) as nat), a[n - 1])
    }
}

/// The multi-scalar multiplication `sum s_i P_i` of the first `n` entries,
/// added from the left onto the identity.
pub open spec fn multiexp_model(s: Seq<nat>, p: Seq<Jacobian>, n: nat) -> Jacobian
    decreases n,
{
    if n == 0 {
        identity_model()
    } else {
        add_model(multiexp_model(s, p, (n - 1) as nat), mul_model(p[n - 1], s[n - 1]))
    }
}

/// The product of a sparse row with a vector: the sum of weight times
/// entry over the first `n` pairs of the row.
pub open spec fn row_product_model(row: Seq<(usize, Scalar)>, v: Seq<nat>, n: nat) -> nat
    decreases n,
{
    if n == 0 {
        0
    } else {
        sadd(row_product_model(row, v, (n - 1) as nat), smul(row[n - 1].1@, v[row[n - 1].0 as int]))
    }
}

/// A vector of scalars.
pub struct ScalarVector(pub Vec<Scalar>);

/// A vector of points.
pub struct PointVector(pub Vec<Point>);

/// A matrix of scalars with a fixed number of columns, stored by rows, each
/// row as pairs of a column index and a weight.
pub struct ScalarMatrix {
    width: usize,
    rows: Vec<Vec<(usize, Scalar)>>,
}

impl View for ScalarVector {
    type V = Seq<nat>;

    open spec fn view(&self) -> Seq<nat> {
        values(self.0@)
    }
}

impl View for PointVector {
    type V = Seq<Jacobian>;

    open spec fn view(&self) -> Seq<Jacobian> {
        coordinates(self.0@)
    }
}

impl ScalarVector {
    /// The vector of `len` zeros.
    pub fn new(len: usize) -> (r: ScalarVector)
        ensures
            r@ == Seq::new(len as nat, |i: int| 0nat),
    {
        let mut v: Vec<Scalar> = Vec::new();
        let mut i: usize = 0;
        while i < len
            invariant
                i <= len,
                v.len() == i,
                forall|k: int| 0 <= k < i ==> v@[k]@ == 0,
            decreases len - i,
        {
            v.push(Scalar::zero());
            i += 1;
        }
        assert(values(v@) =~= Seq::new(len as nat, |i: int| 0nat));
        ScalarVector(v)
    }

    /// The powers `1, y, y^2, ..` of a scalar, `len` of them.
    pub fn powers(y: &Scalar, len: usize) -> (r: ScalarVector)
        ensures
            r@ == Seq::new(len as nat, |i: int| spow(y@, i as nat)),
    {
        let mut v: Vec<Scalar> = Vec::new();
        let mut next = Scalar::one();
        let mut i: usize = 0;
        proof {
            lemma_modulus();
            reveal(pow);
            lemma_small_mod(1, modulus());
        }
        y.value_is_reduced();
        while i < len
            invariant
                i <= len,
                v.len() == i,
                y@ < modulus(),
                next@ == spow(y@, i as nat),
                forall|k: int| 0 <= k < i ==> v@[k]@ == spow(y@, k as nat),
            decreases len - i,
        {
            v.push(next);
            proof {
                lemma_modulus();
                lemma_pow1(y@ as int);
                lemma_small_mod(y@, modulus());
                lemma_pow_mod_mul(y@, i as nat, 1, modulus());
            }
            next = next.mul(y);
            i += 1;
        }
        assert(values(v@) =~= Seq::new(len as nat, |i: int| spow(y@, i as nat)));
        ScalarVector(v)
    }

    /// The number of entries.
    pub fn len(&self) -> (r: usize)
        ensures
            r == self@.len(),
    {
        self.0.len()
    }

    /// The entrywise sum.
    pub fn add(&self, other: &ScalarVector) -> (r: ScalarVector)
        requires
            self@.len() == other@.len(),
        ensures
            r@ == Seq::new(self@.len(), |i: int| sadd(self@[i], other@[i])),
    {
        let mut v: Vec<Scalar> = Vec::new();
        let mut i: usize = 0;
        while i < self.0.len()
            invariant
                i <= self.0.len(),
                self.0.len() == other.0.len(),
                v.len() == i,
                forall|k: int| 0 <= k < i ==> v@[k]@ == sadd(self.0@[k]@, other.0@[k]@),
            decreases self.0.len() - i,
        {
            v.push(self.0[i].add(&other.0[i]));
            i += 1;
        }
        assert(values(v@) =~= Seq::new(self@.len(), |i: int| sadd(self@[i], other@[i])));
        ScalarVector(v)
    }

    /// The entrywise difference.
    pub fn sub(&self, other: &ScalarVector) -> (r: ScalarVector)
        requires
            self@.len() == other@.len(),
        ensures
            r@ == Seq::new(self@.len(), |i: int| ssub(self@[i], other@[i])),
    {
        let mut v: Vec<Scalar> = Vec::new();
        let mut i: usize = 0;
        while i < self.0.len()
            invariant
                i <= self.0.len(),
                self.0.len() == other.0.len(),
                v.len() == i,
                forall|k: int| 0 <= k < i ==> v@[k]@ == ssub(self.0@[k]@, other.0@[k]@),
            decreases self.0.len() - i,
        {
            v.push(self.0[i].sub(&other.0[i]));
            i += 1;
        }
        assert(values(v@) =~= Seq::new(self@.len(), |i: int| ssub(self@[i], other@[i])));
        ScalarVector(v)
    }

    /// The entrywise (Hadamard) product.
    pub fn mul(&self, other: &ScalarVector) -> (r: ScalarVector)
        requires
            self@.len() == other@.len(),
        ensures
            r@ == Seq::new(self@.len(), |i: int| smul(self@[i], other@[i])),
    {
        let mut v: Vec<Scalar> = Vec::new();
        let mut i: usize = 0;
        while i < self.0.len()
            invariant
                i <= self.0.len(),
                self.0.len() == other.0.len(),
                v.len() == i,
                forall|k: int| 0 <= k < i ==> v@[k]@ == smul(self.0@[k]@, other.0@[k]@),
            decreases self.0.len() - i,
        {
            v.push(self.0[i].mul(&other.0[i]));
            i += 1;
        }
        assert(values(v@) =~= Seq::new(self@.len(), |i: int| smul(self@[i], other@[i])));
        ScalarVector(v)
    }

    /// Every entry multiplied by one scalar.
    pub fn scale(&self, factor: &Scalar) -> (r: ScalarVector)
        ensures
            r@ == Seq::new(self@.len(), |i: int| smul(self@[i], factor@)),
    {
        let mut v: Vec<Scalar> = Vec::new();
        let mut i: usize = 0;
        while i < self.0.len()
            invariant
                i <= self.0.len(),
                v.len() == i,
                forall|k: int| 0 <= k < i ==> v@[k]@ == smul(self.0@[k]@, factor@),
            decreases self.0.len() - i,
        {
            v.push(self.0[i].mul(factor));
            i += 1;
        }
        assert(values(v@) =~= Seq::new(self@.len(), |i: int| smul(self@[i], factor@)));
        ScalarVector(v)
    }

    /// The sum of the entries.
    pub fn sum(&self) -> (r: Scalar)
        ensures
            r@ == sum_model(self@, self@.len()),
    {
        let mut acc = Scalar::zero();
        let mut i: usize = 0;
        while i < self.0.len()
            invariant
                i <= self.0.len(),
                acc@ == sum_model(self@, i as nat),
            decreases self.0.len() - i,
        {
            acc = acc.add(&self.0[i]);
            i += 1;
        }
        acc
    }

    /// The inner product with another vector.
    pub fn inner_product(&self, other: &ScalarVector) -> (r: Scalar)
        requires
            self@.len() == other@.len(),
        ensures
            r@ == inner_product_model(self@, other@, self@.len()),
    {
        let mut acc = Scalar::zero();
        let mut i: usize = 0;
        while i < self.0.len()
            invariant
                i <= self.0.len(),
                self.0.len() == other.0.len(),
                acc@ == inner_product_model(self@, other@, i as nat),
            decreases self.0.len() - i,
        {
            acc = acc.add(&self.0[i].mul(&other.0[i]));
            i += 1;
        }
        acc
    }

    /// The inner product with another vector, weighted by the powers of
    /// `y` from the first on.
    pub fn weighted_inner_product(&self, other: &ScalarVector, y: &Scalar) -> (r: Scalar)
        requires
            self@.len() == other@.len(),
        ensures
            r@ == weighted_inner_product_model(self@, other@, y@, self@.len()),
    {
        let mut acc = Scalar::zero();
        let mut weight = *y;
        let mut i: usize = 0;
        y.value_is_reduced();
        proof {
            lemma_modulus();
            lemma_pow1(y@ as int);
            lemma_small_mod(y@, modulus());
        }
        while i < self.0.len()
            invariant
                i <= self.0.len(),
                self.0.len() == other.0.len(),
                y@ < modulus(),
                weight@ == spow(y@, (i + 1) as nat),
                acc@ == weighted_inner_product_model(self@, other@, y@, i as nat),
            decreases self.0.len() - i,
        {
            acc = acc.add(&self.0[i].mul(&other.0[i]).mul(&weight));
            proof {
                lemma_modulus();
                lemma_pow1(y@ as int);
                lemma_small_mod(y@, modulus());
                lemma_pow_mod_mul(y@, (i + 1) as nat, 1, modulus());
            }
            weight = weight.mul(y);
            i += 1;
        }
        acc
    }
}

impl PointVector {
    /// The number of entries.
    pub fn len(&self) -> (r: usize)
        ensures
            r == self@.len(),
    {
        self.0.len()
    }

    /// The multi-scalar multiplication `sum s_i P_i`.
    pub fn multiexp(&self, scalars: &ScalarVector) -> (r: Point)
        requires
            self@.len() == scalars@.len(),
        ensures
            r@ == multiexp_model(scalars@, self@, self@.len()),
    {
        let mut acc = Point::identity();
        let mut i: usize = 0;
        while i < self.0.len()
            invariant
                i <= self.0.len(),
                self.0.len() == scalars.0.len(),
                acc@ == multiexp_model(scalars@, self@, i as nat),
            decreases self.0.len() - i,
        {
            acc = acc.add(&self.0[i].mul(&scalars.0[i]));
            i += 1;
        }
        acc
    }
}

impl ScalarMatrix {
    /// The number of columns.
    pub closed spec fn width_model(&self) -> nat {
        self.width as nat
    }

    /// The rows.
    pub closed spec fn rows_model(&self) -> Seq<Vec<(usize, Scalar)>> {
        self.rows@
    }

    /// Whether every column index of every row is below the width.
    pub open spec fn well_formed(&self) -> bool {
        forall|r: int|
            0 <= r < self.rows_model().len() ==> ScalarMatrix::row_fits(
                (#[trigger] self.rows_model()[r])@,
                self.width_model(),
            )
    }

    /// Whether every column index of a row is below `width`.
    pub open spec fn row_fits(row: Seq<(usize, Scalar)>, width: nat) -> bool {
        forall|k: int| 0 <= k < row.len() ==> (#[trigger] row[k]).0 < width
    }

    /// The matrix with `width` columns and no rows.
    pub fn new(width: usize) -> (r: ScalarMatrix)
        ensures
            r.width_model() == width,
            r.rows_model() == Seq::<Vec<(usize, Scalar)>>::empty(),
            r.well_formed(),
    {
        ScalarMatrix { width, rows: Vec::new() }
    }

    /// The number of columns.
    pub fn width(&self) -> (r: usize)
        ensures
            r == self.width_model(),
    {
        self.width
    }

    /// The number of rows.
    pub fn length(&self) -> (r: usize)
        ensures
            r == self.rows_model().len(),
    {
        self.rows.len()
    }

    /// The row at an index.
    pub fn row(&self, index: usize) -> (r: &Vec<(usize, Scalar)>)
        requires
            index < self.rows_model().len(),
        ensures
            *r == self.rows_model()[index as int],
    {
        &self.rows[index]
    }

    /// Appends a row.
    pub fn push(&mut self, row: Vec<(usize, Scalar)>)
        ensures
            final(self).width_model() == old(self).width_model(),
            final(self).rows_model() == old(self).rows_model().push(row),
            old(self).well_formed() && ScalarMatrix::row_fits(row@, old(self).width_model())
                ==> final(self).well_formed(),
    {
        let ghost before = self.rows@;
        self.rows.push(row);
        proof {
            if ScalarMatrix::row_fits(row@, self.width as nat) && (forall|r: int|
                0 <= r < before.len() ==> ScalarMatrix::row_fits((#[trigger] before[r])@, self.width as nat)) {
                assert forall|r: int| 0 <= r < self.rows@.len() implies ScalarMatrix::row_fits(
                    (#[trigger] self.rows@[r])@,
                    self.width as nat,
                ) by {
                    if r < before.len() {
                        assert(self.rows@[r] == before[r]);
                    }
                }
            }
        }
    }

    /// The product of the matrix with a column vector. Zero weights are
    /// passed over, which changes no sum.
    pub fn mul_vec(&self, v: &ScalarVector) -> (r: ScalarVector)
        requires
            self.well_formed(),
            v@.len() == self.width_model(),
        ensures
            r@ == Seq::new(
                self.rows_model().len(),
                |i: int| row_product_model(self.rows_model()[i]@, v@, self.rows_model()[i]@.len()),
            ),
    {
        let mut out: Vec<Scalar> = Vec::new();
        let mut i: usize = 0;
        while i < self.rows.len()
            invariant
                i <= self.rows.len(),
                out.len() == i,
                v@.len() == self.width,
                self.well_formed(),
                forall|k: int| 0 <= k < i ==> out@[k]@ == row_product_model(self.rows@[k]@, v@, self.rows@[k]@.len()),
            decreases self.rows.len() - i,
        {
            let row = &self.rows[i];
            assert(ScalarMatrix::row_fits(self.rows_model()[i as int]@, self.width_model()));
            let mut acc = Scalar::zero();
            let mut j: usize = 0;
            while j < row.len()
                invariant
                    j <= row.len(),
                    i < self.rows.len(),
                    *row == self.rows@[i as int],
                    v@.len() == self.width,
                    ScalarMatrix::row_fits(row@, self.width as nat),
                    acc@ == row_product_model(row@, v@, j as nat),
                decreases row.len() - j,
            {
                let column = row[j].0;
                let weight = row[j].1;
                assert(row@[j as int].0 < self.width);
                proof {
                    lemma_modulus();
                    lemma_small_mod(0, modulus());
                }
                acc.value_is_reduced();
                if !weight.is_zero() {
                    acc = acc.add(&weight.mul(&v.0[column]));
                } else {
                    proof {
                        lemma_small_mod(acc@, modulus());
                        assert(smul(0, v@[column as int]) == 0) by {
                            assert(0 * v@[column as int] == 0) by (nonlinear_arith);
                        }
                    }
                }
                j += 1;
            }
            out.push(acc);
            i += 1;
        }
        assert(values(out@) =~= Seq::new(
            self.rows_model().len(),
            |i: int| row_product_model(self.rows_model()[i]@, v@, self.rows_model()[i]@.len()),
        ));
        ScalarVector(out)
    }
}

} // verus!
