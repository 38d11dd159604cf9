//! The curve `y^2 = x^3 + 1` over the base field, in Jacobian coordinates.
//!
//! A point `(X, Y, Z)` with `Z != 0` stands for the affine point
//! `(X / Z^2, Y / Z^3)`; any point with `Z = 0` stands for the identity.
//! The contracts are stated over [`Jacobian`], the three coordinates as
//! numbers, and over the field operations of [`crate::modular`].

use vstd::prelude::*;
use vstd::arithmetic::power::*;
use vstd::std_specs::cmp::PartialEqSpecImpl;
use crate::field::{is_square_of, lemma_modulus, modulus, sqrt_candidate, FieldElement};
use crate::le::{
    le_bytes, le_nat, lemma_le_bytes_unique, lemma_le_nat_bound, lemma_le_nat_concat,
    lemma_le_nat_high_zero, lemma_le_nat_single,
};
use crate::modular::{add_mod, bytes_to_repr, mul_mod, neg_mod, pow_mod, sub_mod};
use crate::scalar::Scalar;

verus! {

/// The x-coordinate of the point from which the generator is derived,
/// before it is reduced. It was made by hashing the text
/// `Bulletproof25519 Generator` with SHA-512: these are the first 33
/// bytes of the hash, less their first four bits.
pub const BASE_X: [u8; 64] = [
    82, 194, 225, 77, 110, 127, 158, 232, 180, 108, 128, 159, 243, 89, 200, 71,
    15, 63, 17, 101, 86, 238, 50, 166, 9, 110, 27, 157, 119, 72, 6, 22,
    4, 0, 0, 0, 0, 0, 0, 0, 0, 0, 0, 0, 0, 0, 0, 0,
    0, 0, 0, 0, 0, 0, 0, 0, 0, 0, 0, 0, 0, 0, 0, 0,
];

/// The y-coordinate of that point: the root of `x^3 + 1` that
/// [`FieldElement::sqrt`] gives for the reduced x-coordinate.
pub const BASE_Y: [u8; 64] = [
    200, 185, 12, 179, 243, 172, 251, 24, 227, 217, 158, 210, 183, 127, 73, 251,
    198, 130, 174, 220, 59, 132, 203, 166, 154, 40, 57, 37, 239, 157, 9, 63,
    0, 0, 0, 0, 0, 0, 0, 0, 0, 0, 0, 0, 0, 0, 0, 0,
    0, 0, 0, 0, 0, 0, 0, 0, 0, 0, 0, 0, 0, 0, 0, 0,
];

/// The coordinates of a point, as numbers below the modulus.
pub ghost struct Jacobian {
    pub x: nat,
    pub y: nat,
    pub z: nat,
}

/// Why 33 bytes do not decode to a point.
#[derive(Clone, Copy, Debug, PartialEq, Eq, Structural)]
pub enum DecodeError {
    /// The x-coordinate is not below the modulus, or the identity carries
    /// a sign.
    InvalidEncoding,
    /// No point of the curve has this x-coordinate.
    InvalidPoint,
    /// The point is not in the subgroup of prime order.
    Torsion,
}

/// Field sum.
pub open spec fn fadd(a: nat, b: nat) -> nat {
    add_mod(a, b, modulus())
}

/// Field difference.
pub open spec fn fsub(a: nat, b: nat) -> nat {
    sub_mod(a, b, modulus())
}

/// Field product.
pub open spec fn fmul(a: nat, b: nat) -> nat {
    mul_mod(a, b, modulus())
}

/// Field negation.
pub open spec fn fneg(a: nat) -> nat {
    neg_mod(a, modulus())
}

/// Field inverse by Fermat's exponent, with zero for zero.
pub open spec fn finv(a: nat) -> nat {
    if a == 0 {
        0
    } else {
        pow_mod(a, (modulus() - 2) as nat, modulus())
    }
}

/// The identity in its canonical coordinates.
pub open spec fn identity_model() -> Jacobian {
    Jacobian { x: 0, y: 1, z: 0 }
}

/// Whether two triples stand for one point: `X1 Z2^2 = X2 Z1^2` and
/// `Y1 Z2^3 = Y2 Z1^3`.
pub open spec fn same_point(a: Jacobian, b: Jacobian) -> bool {
    &&& fmul(a.x, fmul(b.z, b.z)) == fmul(b.x, fmul(a.z, a.z))
    &&& fmul(fmul(a.y, b.z), fmul(b.z, b.z)) == fmul(fmul(b.y, a.z), fmul(a.z, a.z))
}

/// Whether one triple stands for the negation of the other.
pub open spec fn opposite_points(a: Jacobian, b: Jacobian) -> bool {
    &&& fmul(a.x, fmul(b.z, b.z)) == fmul(b.x, fmul(a.z, a.z))
    &&& fmul(fmul(a.y, b.z), fmul(b.z, b.z)) == fneg(fmul(fmul(b.y, a.z), fmul(a.z, a.z)))
}

/// Negation: the y-coordinate changes sign.
pub open spec fn neg_model(a: Jacobian) -> Jacobian {
    Jacobian { x: a.x, y: fneg(a.y), z: a.z }
}

/// The doubling formula for a curve with `a = 0`.
#[verifier::opaque]
pub open spec fn double_model(p: Jacobian) -> Jacobian {
    let a = fmul(p.x, p.x);
    let b = fmul(p.y, p.y);
    let c = fmul(b, b);
    let xb = fadd(p.x, b);
    let d0 = fsub(fsub(fmul(xb, xb), a), c);
    let d = fadd(d0, d0);
    let e = fadd(fadd(a, a), a);
    let f = fmul(e, e);
    let x = fsub(f, fadd(d, d));
    let c2 = fadd(c, c);
    let c4 = fadd(c2, c2);
    let c8 = fadd(c4, c4);
    let yz = fmul(p.y, p.z);
    Jacobian { x, y: fsub(fmul(e, fsub(d, x)), c8), z: fadd(yz, yz) }
}

/// The addition formula for two distinct points, neither the identity nor
/// each other's negation (add-2007-bl).
pub open spec fn chord_model(p: Jacobian, q: Jacobian) -> Jacobian {
    let z1z1 = fmul(p.z, p.z);
    let z2z2 = fmul(q.z, q.z);
    let u1 = fmul(p.x, z2z2);
    let u2 = fmul(q.x, z1z1);
    let s1 = fmul(fmul(p.y, q.z), z2z2);
    let s2 = fmul(fmul(q.y, p.z), z1z1);
    let h = fsub(u2, u1);
    let h2 = fadd(h, h);
    let i = fmul(h2, h2);
    let j = fmul(h, i);
    let r0 = fsub(s2, s1);
    let r = fadd(r0, r0);
    let v = fmul(u1, i);
    let x = fsub(fsub(fmul(r, r), j), fadd(v, v));
    let zs = fadd(p.z, q.z);
    Jacobian {
        x,
        y: fsub(fmul(r, fsub(v, x)), fmul(fadd(s1, s1), j)),
        z: fmul(fsub(fsub(fmul(zs, zs), z1z1), z2z2), h),
    }
}

/// Addition: the identity on either side gives the other operand, equal
/// points double, opposite points give the identity, and the rest goes by
/// the chord formula.
#[verifier::opaque]
pub open spec fn add_model(p: Jacobian, q: Jacobian) -> Jacobian {
    if q.z == 0 {
        p
    } else if p.z == 0 {
        q
    } else if same_point(p, q) {
        double_model(p)
    } else if opposite_points(p, q) {
        identity_model()
    } else {
        chord_model(p, q)
    }
}

/// Six times a point: twice its double, plus its double.
pub open spec fn cofactor_model(p: Jacobian) -> Jacobian {
    let two = double_model(p);
    add_model(double_model(two), two)
}

/// The small multiples that the window method tabulates: the identity,
/// the point, and from there each entry plus the point.
pub open spec fn multiple_model(p: Jacobian, k: nat) -> Jacobian
    decreases k,
{
    if k == 0 {
        identity_model()
    } else if k == 1 {
        p
    } else {
        add_model(multiple_model(p, (k - 1) as nat), p)
    }
}

/// Sixteen times a point, by four doublings.
pub open spec fn sixteen_model(p: Jacobian) -> Jacobian {
    double_model(double_model(double_model(double_model(p))))
}

/// Scalar multiplication by a four-bit fixed window over the `digits`
/// lowest nibbles of `n`, most significant first: the first nibble's
/// multiple is added to the identity; every later nibble sees the
/// accumulator doubled four times before its multiple is added.
pub open spec fn window_mul_model(p: Jacobian, n: nat, digits: nat) -> Jacobian
    decreases digits,
{
    if digits == 0 {
        identity_model()
    } else if digits == 1 {
        add_model(identity_model(), multiple_model(p, n % 16))
    } else {
        add_model(
            sixteen_model(window_mul_model(p, n / 16, (digits - 1) as nat)),
            multiple_model(p, n % 16),
        )
    }
}

/// Scalar multiplication: the window method over the 66 nibbles of a
/// 33-byte scalar.
pub open spec fn mul_model(p: Jacobian, n: nat) -> Jacobian {
    window_mul_model(p, n, 66)
}

/// The value of the sign bit in a 33-byte encoding: bit 263.
pub open spec fn sign_bit() -> nat {
    (128 * pow(256, 32)) as nat
}

/// The number that encodes a point: its affine x-coordinate, plus the sign
/// bit if its affine y-coordinate is odd. The identity encodes as zero.
pub open spec fn encode_model(p: Jacobian) -> nat {
    let zz = fmul(p.z, p.z);
    let zzz = fmul(zz, p.z);
    let x = fmul(p.x, finv(zz));
    let y = fmul(p.y, finv(zzz));
    if y % 2 == 1 {
        x + sign_bit()
    } else {
        x
    }
}

/// The point that a number decodes to, or the reason why it decodes to
/// none.
pub open spec fn decode_model(n: nat) -> Result<Jacobian, DecodeError> {
    let sign = n >= sign_bit();
    let x = if sign {
        (n - sign_bit()) as nat
    } else {
        n
    };
    let rhs = fadd(fmul(fmul(x, x), x), 1);
    let root = sqrt_candidate(rhs);
    let y = if (root % 2 == 1) != sign {
        fneg(root)
    } else {
        root
    };
    let p = Jacobian { x, y, z: if x == 0 { 0 } else { 1 } };
    if x >= modulus() {
        Err(DecodeError::InvalidEncoding)
    } else if !is_square_of(rhs, root) {
        Err(DecodeError::InvalidPoint)
    } else if x == 0 && sign {
        Err(DecodeError::InvalidEncoding)
    } else if mul_model(p, crate::scalar::modulus()).z != 0 {
        Err(DecodeError::Torsion)
    } else {
        Ok(p)
    }
}

/// The generator: six times the base point.
pub open spec fn generator_model() -> Jacobian {
    cofactor_model(
        Jacobian { x: le_nat(BASE_X@) % modulus(), y: le_nat(BASE_Y@) % modulus(), z: 1 },
    )
}

/// The sum of a sequence of points, added from the left onto the identity.
pub open spec fn sum_model(points: Seq<Point>) -> Jacobian
    decreases points.len(),
{
    if points.len() == 0 {
        identity_model()
    } else {
        add_model(sum_model(points.drop_last()), points.last()@)
    }
}

/// The window method, taken two nibbles at a time: one more byte below
/// the ones already processed.
pub proof fn lemma_window_byte(p: Jacobian, rest: nat, byte: nat, digits: nat)
    requires
        byte < 256,
        digits >= 1,
    ensures
        window_mul_model(p, byte + 256 * rest, digits + 2) == add_model(
            sixteen_model(
                add_model(
                    sixteen_model(window_mul_model(p, rest, digits)),
                    multiple_model(p, byte / 16),
                ),
            ),
            multiple_model(p, byte % 16),
        ),
{
    let n = byte + 256 * rest;
    let m = n / 16;
    assert(n % 16 == byte % 16);
    assert(m == byte / 16 + 16 * rest);
    assert(m % 16 == byte / 16);
    assert(m / 16 == rest);
    assert(window_mul_model(p, m, digits + 1) == add_model(
        sixteen_model(window_mul_model(p, m / 16, digits)),
        multiple_model(p, m % 16),
    ));
    assert(window_mul_model(p, n, digits + 2) == add_model(
        sixteen_model(window_mul_model(p, n / 16, (digits + 1) as nat)),
        multiple_model(p, n % 16),
    ));
}

/// A point of the curve in Jacobian coordinates.
#[derive(Clone, Copy, Debug)]
pub struct Point {
    x: FieldElement,
    y: FieldElement,
    z: FieldElement,
}

impl View for Point {
    type V = Jacobian;

    closed spec fn view(&self) -> Jacobian {
        Jacobian { x: self.x@, y: self.y@, z: self.z@ }
    }
}

impl Point {
    /// The identity, `(0, 1, 0)`.
    pub fn identity() -> (r: Point)
        ensures
            r@ == identity_model(),
    {
        Point { x: FieldElement::zero(), y: FieldElement::one(), z: FieldElement::zero() }
    }

    /// The generator of the subgroup of prime order.
    pub fn generator() -> (r: Point)
        ensures
            r@ == generator_model(),
    {
        let base = Point {
            x: FieldElement::reduce(&BASE_X),
            y: FieldElement::reduce(&BASE_Y),
            z: FieldElement::one(),
        };
        base.mul_by_cofactor()
    }

    /// The point with the given affine coordinates. Nothing is checked:
    /// the pair need not satisfy the curve equation.
    pub fn from_affine_unchecked(x: FieldElement, y: FieldElement) -> (r: Point)
        ensures
            r@ == (Jacobian { x: x@, y: y@, z: 1 }),
    {
        Point { x, y, z: FieldElement::one() }
    }

    /// Whether the point is the identity.
    pub fn is_identity(&self) -> (r: bool)
        ensures
            r == (self@.z == 0),
    {
        self.z.is_zero()
    }

    /// Whether two triples stand for one point, decided without branching
    /// on them.
    pub fn ct_eq(&self, other: &Point) -> (r: bool)
        ensures
            r == same_point(self@, other@),
    {
        let z1_2 = self.z.square();
        let z2_2 = other.z.square();
        let u1 = self.x.mul(&z2_2);
        let u2 = other.x.mul(&z1_2);
        let s1 = self.y.mul(&other.z).mul(&z2_2);
        let s2 = other.y.mul(&self.z).mul(&z1_2);
        let same_x = u1.ct_eq(&u2);
        let same_y = s1.ct_eq(&s2);
        same_x && same_y
    }

    /// `b` if `choice` is set and `a` otherwise, picked without branching.
    pub fn conditional_select(a: &Point, b: &Point, choice: bool) -> (r: Point)
        ensures
            r == if choice { *b } else { *a },
    {
        Point {
            x: FieldElement::conditional_select(&a.x, &b.x, choice),
            y: FieldElement::conditional_select(&a.y, &b.y, choice),
            z: FieldElement::conditional_select(&a.z, &b.z, choice),
        }
    }

    /// The negation.
    pub fn neg(&self) -> (r: Point)
        ensures
            r@ == neg_model(self@),
    {
        Point { x: self.x, y: self.y.neg(), z: self.z }
    }

    /// Twice the point.
    pub fn double(&self) -> (r: Point)
        ensures
            r@ == double_model(self@),
    {
        proof {
            reveal(double_model);
        }
        let a = self.x.square();
        let b = self.y.square();
        let c = b.square();
        let d = self.x.add(&b).square().sub(&a).sub(&c).double();
        let e = a.double().add(&a);
        let f = e.square();
        let x = f.sub(&d.double());
        Point {
            x,
            y: e.mul(&d.sub(&x)).sub(&c.double().double().double()),
            z: self.y.mul(&self.z).double(),
        }
    }

    /// The sum of two points. Every branch is computed and the result is
    /// selected, so that the time taken does not depend on the operands.
    pub fn add(&self, other: &Point) -> (r: Point)
        ensures
            r@ == add_model(self@, other@),
    {
        proof {
            reveal(add_model);
        }
        let z1_2 = self.z.square();
        let z2_2 = other.z.square();
        let u1 = self.x.mul(&z2_2);
        let u2 = other.x.mul(&z1_2);
        let s1 = self.y.mul(&other.z).mul(&z2_2);
        let s2 = other.y.mul(&self.z).mul(&z1_2);

        let same_x = u1.ct_eq(&u2);
        let same_y = s1.ct_eq(&s2);
        let opposite_y = s1.ct_eq(&s2.neg());
        let double = self.double();

        let h = u2.sub(&u1);
        let i = h.double().square();
        let j = h.mul(&i);
        let r = s2.sub(&s1).double();
        let v = u1.mul(&i);
        let x = r.square().sub(&j).sub(&v.double());
        let candidate = Point {
            x,
            y: r.mul(&v.sub(&x)).sub(&s1.double().mul(&j)),
            z: self.z.add(&other.z).square().sub(&z1_2).sub(&z2_2).mul(&h),
        };

        let res = Point::conditional_select(&candidate, &Point::identity(), same_x && opposite_y);
        let res = Point::conditional_select(&res, &double, same_x && same_y);
        let res = Point::conditional_select(&res, other, self.z.is_zero());
        Point::conditional_select(&res, self, other.z.is_zero())
    }

    /// The difference of two points.
    pub fn sub(&self, other: &Point) -> (r: Point)
        ensures
            r@ == add_model(self@, neg_model(other@)),
    {
        self.add(&other.neg())
    }

    /// Six times the point, which clears the small factors of its order.
    pub fn mul_by_cofactor(&self) -> (r: Point)
        ensures
            r@ == cofactor_model(self@),
    {
        let two = self.double();
        two.double().add(&two)
    }

    /// The sum of a list of points.
    pub fn sum(points: &Vec<Point>) -> (r: Point)
        ensures
            r@ == sum_model(points@),
    {
        let mut res = Point::identity();
        let mut i: usize = 0;
        while i < points.len()
            invariant
                i <= points.len(),
                res@ == sum_model(points@.take(i as int)),
            decreases points.len() - i,
        {
            proof {
                assert(points@.take(i as int + 1).drop_last() =~= points@.take(i as int));
            }
            res = res.add(&points[i]);
            i += 1;
        }
        proof {
            assert(points@.take(points.len() as int) =~= points@);
        }
        res
    }

    /// The table `0 P, 1 P, .. 15 P` of the window method.
    fn multiples(&self) -> (table: Vec<Point>)
        ensures
            table.len() == 16,
            forall|k: int| 0 <= k < 16 ==> (#[trigger] table[k])@ == multiple_model(self@, k as nat),
    {
        let mut table: Vec<Point> = Vec::new();
        table.push(Point::identity());
        table.push(*self);
        let mut i: usize = 2;
        while i < 16
            invariant
                2 <= i <= 16,
                table.len() == i,
                forall|k: int| 0 <= k < i ==> (#[trigger] table[k])@ == multiple_model(self@, k as nat),
            decreases 16 - i,
        {
            let next = table[i - 1].add(self);
            table.push(next);
            i += 1;
        }
        table
    }

    /// One later step of the window method: four doublings, one addition.
    fn window_step(&self, table: &Vec<Point>, nibble: u8) -> (r: Point)
        requires
            nibble < 16,
            table.len() == 16,
        ensures
            r@ == add_model(sixteen_model(self@), table[nibble as int]@),
    {
        self.double().double().double().double().add(&table[nibble as usize])
    }

    /// The point multiplied by the number that 33 little-endian bytes
    /// encode.
    pub fn mul_bytes(&self, scalar: &[u8; 33]) -> (r: Point)
        ensures
            r@ == mul_model(self@, le_nat(scalar@)),
    {
        let table = self.multiples();
        let top = scalar[32];
        let first = Point::identity().add(&table[(top / 16) as usize]);
        let mut acc = first.window_step(&table, top % 16);
        let mut j: usize = 32;
        proof {
            assert(scalar@.skip(32) =~= seq![top]);
            lemma_le_nat_single(top);
            let n = top as nat;
            assert(n % 16 == top % 16 && (n / 16) % 16 == top / 16);
            assert(window_mul_model(self@, n / 16, 1) == add_model(
                identity_model(),
                multiple_model(self@, (n / 16) % 16),
            ));
            assert(window_mul_model(self@, n, 2) == add_model(
                sixteen_model(window_mul_model(self@, n / 16, 1)),
                multiple_model(self@, n % 16),
            ));
        }
        while j > 0
            invariant
                j <= 32,
                table.len() == 16,
                forall|k: int| 0 <= k < 16 ==> (#[trigger] table[k])@ == multiple_model(self@, k as nat),
                acc@ == window_mul_model(self@, le_nat(scalar@.skip(j as int)), (2 * (33 - j)) as nat),
            decreases j,
        {
            j -= 1;
            let byte = scalar[j];
            let ghost rest = le_nat(scalar@.skip(j as int + 1));
            let ghost before = acc@;
            let high = acc.window_step(&table, byte / 16);
            acc = high.window_step(&table, byte % 16);
            proof {
                assert(scalar@.skip(j as int).skip(1) =~= scalar@.skip(j as int + 1));
                assert(le_nat(scalar@.skip(j as int)) == byte as nat + 256 * rest);
                assert(table[(byte / 16) as int]@ == multiple_model(self@, (byte / 16) as nat));
                assert(table[(byte % 16) as int]@ == multiple_model(self@, (byte % 16) as nat));
                lemma_window_byte(self@, rest, byte as nat, (2 * (32 - j)) as nat);
            }
        }
        proof {
            assert(scalar@.skip(0) =~= scalar@);
        }
        acc
    }

    /// The point multiplied by a scalar, by a four-bit fixed window.
    pub fn mul(&self, scalar: &Scalar) -> (r: Point)
        ensures
            r@ == mul_model(self@, scalar@),
    {
        self.mul_bytes(&scalar.to_repr())
    }

    /// The point that a wide string of bytes and a sign stand for, if
    /// they stand for one: the bytes are reduced to an x-coordinate, which
    /// is encoded with the sign and decoded. Fed with uniform bytes until
    /// it succeeds, this samples a point of the subgroup.
    pub fn from_uniform(wide: &[u8; 128], sign: bool) -> (r: Result<Point, DecodeError>)
        ensures
            ({
                let x = le_nat(wide@) % modulus();
                let n = if sign {
                    x + sign_bit()
                } else {
                    x
                };
                match r {
                    Ok(p) => decode_model(n) == Ok::<Jacobian, DecodeError>(p@),
                    Err(e) => decode_model(n) == Err::<Jacobian, DecodeError>(e),
                }
            }),
    {
        let x = FieldElement::from_wide(wide);
        let mut bytes = x.to_repr();
        let ghost plain = bytes@;
        x.value_is_reduced();
        proof {
            lemma_modulus();
            lemma_le_nat_high_zero(plain, 32);
        }
        let flag: u8 = if sign { 128 } else { 0 };
        bytes[32] = bytes[32] + flag;
        proof {
            let lo = plain.take(32);
            assert(plain =~= lo + seq![0u8]);
            assert(bytes@ =~= lo + seq![flag]);
            lemma_le_nat_concat(lo, seq![0u8]);
            lemma_le_nat_concat(lo, seq![flag]);
            lemma_le_nat_single(0u8);
            lemma_le_nat_single(flag);
            assert(pow(256, 32) * 0 == 0);
            assert(pow(256, 32) * 128 == 128 * pow(256, 32));
        }
        Point::from_bytes(&bytes)
    }

    /// The point multiplied by the order of the subgroup: the identity
    /// exactly for the points of that subgroup.
    pub fn mul_by_order(&self) -> (r: Point)
        ensures
            r@ == mul_model(self@, crate::scalar::modulus()),
    {
        proof {
            crate::scalar::lemma_modulus();
        }
        let order = bytes_to_repr(&crate::scalar::MODULUS);
        self.mul_bytes(&order)
    }

    /// The 33-byte encoding: the affine x-coordinate, least significant
    /// byte first, with the parity of the affine y-coordinate in the top
    /// bit of the last byte.
    pub fn to_bytes(&self) -> (r: [u8; 33])
        ensures
            le_nat(r@) == encode_model(self@),
            r@ == le_bytes(encode_model(self@), 33),
    {
        let z2 = self.z.square();
        let z3 = z2.mul(&self.z);
        let z2_inv = match z2.invert() {
            Some(inv) => inv,
            None => FieldElement::zero(),
        };
        let z3_inv = match z3.invert() {
            Some(inv) => inv,
            None => FieldElement::zero(),
        };
        let x = self.x.mul(&z2_inv);
        let y = self.y.mul(&z3_inv);
        let mut bytes = x.to_repr();
        let ghost plain = bytes@;
        x.value_is_reduced();
        proof {
            lemma_modulus();
            lemma_le_nat_high_zero(plain, 32);
        }
        let sign: u8 = if y.is_odd() { 128 } else { 0 };
        bytes[32] = bytes[32] + sign;
        proof {
            let lo = plain.take(32);
            assert(plain =~= lo + seq![0u8]);
            assert(bytes@ =~= lo + seq![sign]);
            lemma_le_nat_concat(lo, seq![0u8]);
            lemma_le_nat_concat(lo, seq![sign]);
            lemma_le_nat_single(0u8);
            lemma_le_nat_single(sign);
            assert(pow(256, 32) * 0 == 0);
            assert(pow(256, 32) * 128 == 128 * pow(256, 32));
            lemma_le_bytes_unique(bytes@);
        }
        bytes
    }

    /// The point that 33 bytes encode, if they encode a point of the
    /// subgroup of prime order.
    pub fn from_bytes(bytes: &[u8; 33]) -> (r: Result<Point, DecodeError>)
        ensures
            match r {
                Ok(p) => decode_model(le_nat(bytes@)) == Ok::<Jacobian, DecodeError>(p@),
                Err(e) => decode_model(le_nat(bytes@)) == Err::<Jacobian, DecodeError>(e),
            },
    {
        let sign = bytes[32] >= 128;
        let mut cleared = *bytes;
        cleared[32] = bytes[32] % 128;
        proof {
            let lo = bytes@.take(32);
            assert(bytes@ =~= lo + seq![bytes[32]]);
            assert(cleared@ =~= lo + seq![cleared[32]]);
            lemma_le_nat_concat(lo, seq![bytes[32]]);
            lemma_le_nat_concat(lo, seq![cleared[32]]);
            lemma_le_nat_single(bytes[32]);
            lemma_le_nat_single(cleared[32]);
            lemma_le_nat_bound(lo);
            let c = pow(256, 32);
            let b = bytes[32] as int;
            assert(c * (b % 128) + (if b >= 128 { 128 * c } else { 0 }) == c * b) by (nonlinear_arith)
                requires
                    0 <= b < 256,
            ;
            assert(b >= 128 ==> c * b >= 128 * c) by (nonlinear_arith)
                requires
                    c > 0,
            ;
            assert(b < 128 ==> c * b <= 127 * c) by (nonlinear_arith)
                requires
                    c > 0,
            ;
        }
        let x = match FieldElement::from_repr(&cleared) {
            Some(x) => x,
            None => { return Err(DecodeError::InvalidEncoding); },
        };
        let rhs = x.square().mul(&x).add(&FieldElement::one());
        let root = match rhs.sqrt() {
            Some(root) => root,
            None => { return Err(DecodeError::InvalidPoint); },
        };
        let y = FieldElement::conditional_select(&root, &root.neg(), root.is_odd() != sign);
        let infinity = x.is_zero();
        let z = FieldElement::conditional_select(&FieldElement::one(), &FieldElement::zero(), infinity);
        let point = Point { x, y, z };
        if infinity && sign {
            return Err(DecodeError::InvalidEncoding);
        }
        if !point.mul_by_order().is_identity() {
            return Err(DecodeError::Torsion);
        }
        Ok(point)
    }
}

impl PartialEq for Point {
    fn eq(&self, other: &Point) -> (r: bool) {
        self.ct_eq(other)
    }
}

impl PartialEqSpecImpl for Point {
    open spec fn obeys_eq_spec() -> bool {
        true
    }

    open spec fn eq_spec(&self, other: &Point) -> bool {
        same_point(self@, other@)
    }
}


/// Decoding and encoding round-trip: the encoding of a point that was
/// decoded decodes to the same point.
pub proof fn lemma_decode_encode(n: nat)
    requires
        decode_model(n) is Ok,
    ensures
        decode_model(encode_model(decode_model(n)->Ok_0)) == decode_model(n),
{
    lemma_modulus();
    let m = modulus();
    let sign = n >= sign_bit();
    let x = if sign {
        (n - sign_bit()) as nat
    } else {
        n
    };
    let rhs = fadd(fmul(fmul(x, x), x), 1);
    let root = sqrt_candidate(rhs);
    let y = if (root % 2 == 1) != sign {
        fneg(root)
    } else {
        root
    };
    let p = decode_model(n)->Ok_0;
    assert(p == Jacobian { x, y, z: if x == 0 { 0 } else { 1 } });
    vstd::arithmetic::div_mod::lemma_mod_bound(pow(rhs as int, crate::field::sqrt_exponent()), m as int);
    assert(root < m);
    vstd::arithmetic::div_mod::lemma_mod_bound(0 - root, m as int);
    assert(y < m);
    // The modulus is far below the sign bit.
    assert(m < sign_bit()) by {
        vstd::arithmetic::power::lemma_pow_positive(256, 32);
    }
    if x == 0 {
        assert(fmul(0, 0) == 0) by {
            vstd::arithmetic::div_mod::lemma_small_mod(0, m);
        }
        assert(fmul(x, finv(0)) == 0);
        assert(fmul(y, 0) == 0) by {
            assert(y * 0 == 0);
            vstd::arithmetic::div_mod::lemma_small_mod(0, m);
        }
    } else {
        assert(fmul(1, 1) == 1) by {
            vstd::arithmetic::div_mod::lemma_small_mod(1, m);
        }
        assert(finv(1) == 1) by {
            vstd::arithmetic::power::lemma1_pow((m - 2) as nat);
            vstd::arithmetic::div_mod::lemma_small_mod(1, m);
        }
        assert(fmul(x, 1) == x) by {
            assert(x * 1 == x);
            vstd::arithmetic::div_mod::lemma_small_mod(x, m);
        }
        assert(fmul(y, 1) == y) by {
            assert(y * 1 == y);
            vstd::arithmetic::div_mod::lemma_small_mod(y, m);
        }
        // Negation flips the parity of a non-zero element, the modulus being odd.
        if root != 0 {
            assert(fneg(root) == m - root) by {
                vstd::arithmetic::div_mod::lemma_mod_add_multiples_vanish(0 - root, m as int);
                vstd::arithmetic::div_mod::lemma_small_mod((m - root) as nat, m);
            }
        } else {
            assert(fneg(0) == 0) by {
                vstd::arithmetic::div_mod::lemma_small_mod(0, m);
            }
        }
    }
}


/// Zero times a point is the identity, and adding it changes nothing:
/// `s P + 0 P` is `s P`, whatever `s P` is.
pub proof fn lemma_mul_zero(p: Jacobian, q: Jacobian)
    ensures
        mul_model(p, 0).z == 0,
        add_model(q, mul_model(p, 0)) == q,
{
    lemma_modulus();
    lemma_window_zero(p, 66);
    reveal(add_model);
}

/// The window method over nibbles that are all zero gives a point with
/// `Z = 0`.
pub proof fn lemma_window_zero(p: Jacobian, digits: nat)
    ensures
        window_mul_model(p, 0, digits).z == 0,
    decreases digits,
{
    lemma_modulus();
    reveal(add_model);
    reveal(double_model);
    if digits >= 2 {
        lemma_window_zero(p, (digits - 1) as nat);
        let acc = window_mul_model(p, 0, (digits - 1) as nat);
        lemma_double_identity(acc);
        lemma_double_identity(double_model(acc));
        lemma_double_identity(double_model(double_model(acc)));
        lemma_double_identity(double_model(double_model(double_model(acc))));
    }
}

/// Doubling keeps `Z = 0`.
pub proof fn lemma_double_identity(p: Jacobian)
    requires
        p.z == 0,
    ensures
        double_model(p).z == 0,
{
    lemma_modulus();
    reveal(double_model);
    let yz = fmul(p.y, 0);
    assert(p.y * 0 == 0);
    vstd::arithmetic::div_mod::lemma_small_mod(0, modulus());
}


/// In a prime field, a product taken and then divided by a non-zero
/// factor is what it was: `(a b) b^-1 = a`.
pub proof fn lemma_cancel_factor(a: nat, b: nat)
    requires
        crate::prime::is_prime(modulus()),
        a < modulus(),
        0 < b < modulus(),
    ensures
        fmul(fmul(a, b), finv(b)) == a,
{
    let p = modulus();
    let inverse = pow_mod(b, (p - 2) as nat, p);
    crate::prime::lemma_fermat_inverse(b, p);
    // ((a b) % p) b^-1 = a ((b b^-1) % p) = a (mod p).
    vstd::arithmetic::div_mod::lemma_mul_mod_noop_general((a * b) as int, inverse as int, p as int);
    vstd::arithmetic::div_mod::lemma_mul_mod_noop_general(a as int, (b * inverse) as int, p as int);
    assert((a * b) * inverse == a * (b * inverse)) by (nonlinear_arith);
    assert(a * 1 == a);
    vstd::arithmetic::div_mod::lemma_small_mod(a, p);
}

/// The encoding of a point does not depend on how its coordinates are
/// scaled: the point with the affine coordinates `(x, y)` encodes to one
/// number under every non-zero `z`. The field is a field: its modulus is
/// prime.
pub proof fn lemma_encode_scaled(x: nat, y: nat, z: nat)
    requires
        crate::prime::is_prime(modulus()),
        x < modulus(),
        y < modulus(),
        0 < z < modulus(),
    ensures
        encode_model(Jacobian { x: fmul(x, fmul(z, z)), y: fmul(y, fmul(fmul(z, z), z)), z }) == encode_model(
            Jacobian { x, y, z: 1 },
        ),
        encode_model(Jacobian { x, y, z: 1 }) == if y % 2 == 1 {
            x + sign_bit()
        } else {
            x
        },
{
    let p = modulus();
    let zz = fmul(z, z);
    let zzz = fmul(zz, z);
    vstd::arithmetic::div_mod::lemma_mod_bound((z * z) as int, p as int);
    vstd::arithmetic::div_mod::lemma_mod_bound((zz * z) as int, p as int);
    if zz == 0 {
        crate::prime::lemma_no_zero_divisors(z, z, p);
    }
    if zzz == 0 {
        crate::prime::lemma_no_zero_divisors(zz, z, p);
    }
    lemma_cancel_factor(x, zz);
    lemma_cancel_factor(y, zzz);
    // With z = 1 the coordinates are the affine ones.
    assert(fmul(1, 1) == 1) by {
        assert(1 * 1 == 1);
        vstd::arithmetic::div_mod::lemma_small_mod(1, p);
    }
    lemma_cancel_factor(x, 1);
    lemma_cancel_factor(y, 1);
    assert(fmul(x, 1) == x) by {
        assert(x * 1 == x);
        vstd::arithmetic::div_mod::lemma_small_mod(x, p);
    }
    assert(fmul(y, 1) == y) by {
        assert(y * 1 == y);
        vstd::arithmetic::div_mod::lemma_small_mod(y, p);
    }
}

} // verus!
