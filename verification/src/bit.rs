//! The bit gadget: a variable constrained to be zero or one, and the
//! selections that it makes.
//!
//! A bit `b` is held as two variables, `l = b` and `r = b - 1`, with the
//! product `l * r = 0` and the constraint `l - r = 1`.
//!
//! A selection adds a variable for what is chosen and one constraint
//! that defines it. What is chosen has no role in a product yet, so the
//! constraint weighs the variable itself, and the circuit gives the
//! weight to the variable's role when a product first uses it.

use vstd::prelude::*;
use crate::circuit::{
    constant_constraint, find_product, lemma_fresh_unused, lemma_product_unused, lemma_unused_not_in_use,
    lemma_weight_fits, optional_value, Circuit, CircuitModel, Constraint, ConstraintModel,
    Product, ProductReference, VariableModel, VariableReference,
};
use crate::compile::{constraint_eval, lemma_all_satisfied};
use crate::prime::{is_prime, lemma_no_zero_divisors};
use crate::scalar::{modulus, Scalar};
use crate::vector::{sadd, smul, ssub};

verus! {

/// A bit of the witness.
#[derive(Clone, Copy, Debug)]
pub struct Bit {
    /// Whether the bit is set: known to the prover only.
    pub value: Option<bool>,
    /// The variable that holds the bit.
    pub variable: VariableReference,
    /// The variable that holds the bit less one.
    pub minus_one: VariableReference,
}

/// The constraint `1 l - 1 r = 1`.
pub open spec fn minus_one_constraint(l: ProductReference, r: ProductReference) -> ConstraintModel {
    ConstraintModel { c: 1, ..ConstraintModel::empty("l_minus_one"@).weight(l, 1).weight(r, ssub(0, 1)) }
}

/// The terms `w1 a + w2 b` of a selection's constraint, which still
/// lacks the weight of what is chosen.
pub open spec fn chosen_terms(a: ProductReference, w1: nat, b: ProductReference, w2: nat) -> ConstraintModel {
    ConstraintModel::empty("chosen"@).weight(a, w1).weight(b, w2)
}

/// A value less one, where there is a value.
pub open spec fn minus_one_value(v: Option<nat>) -> Option<nat> {
    match v {
        Some(v) => Some(ssub(v, 1)),
        None => None,
    }
}

/// The circuit after a variable was made a bit: with a secret variable
/// for the bit less one, the product that multiplies the two, the constraint
/// that the product's output is zero, and the constraint that the two differ
/// by one.
pub open spec fn bit_model(m: CircuitModel, bit: usize) -> CircuitModel {
    let r = m.variables.len() as usize;
    let with_r = m.push_variable(VariableModel::Secret(minus_one_value(m.variables[bit as int].value())));
    let refs = with_r.product_references(bit, r).0;
    with_r.product(bit, r).constrain(constant_constraint(refs.2, 0, 0)).constrain(
        minus_one_constraint(refs.0, refs.1),
    )
}

/// What a selection picks: the second value if the bit is set, the first
/// otherwise; nothing for a verifier.
pub open spec fn selected(prover: bool, bit: Option<bool>, if_false: Option<nat>, if_true: Option<nat>) -> Option<nat> {
    if prover {
        if bit->Some_0 {
            if_true
        } else {
            if_false
        }
    } else {
        None
    }
}

/// The circuit after a selection between two variables: with a secret
/// variable for what is chosen, the products `bit * if_true` and
/// `(bit - 1) * if_false`, and the constraint that the first product's
/// output less the second's less what is chosen is zero. No product
/// multiplies what is chosen yet, so the constraint weighs the variable
/// itself.
pub open spec fn select_model(m: CircuitModel, bit: Bit, if_false: usize, if_true: usize) -> CircuitModel {
    let chosen = m.variables.len() as usize;
    let m1 = m.push_variable(
        VariableModel::Secret(
            selected(m.prover, bit.value, m.variables[if_false as int].value(), m.variables[if_true as int].value()),
        ),
    );
    let lo = m1.product_references(bit.variable.0, if_true).0.2;
    let m2 = m1.product(bit.variable.0, if_true);
    let ro = m2.product_references(bit.minus_one_model(), if_false).0.2;
    let m3 = m2.product(bit.minus_one_model(), if_false);
    m3.constrain(chosen_terms(lo, 1, ro, ssub(0, 1)).weight_variable(chosen, ssub(0, 1)))
}

/// The constraint of a selection between two constants:
/// `if_true l - if_false r - chosen = 0`, over the roles `l` and `r` in
/// which the bit's two variables are in use, and the variable for what is
/// chosen.
pub open spec fn constant_choice(m: CircuitModel, bit: Bit, if_false: nat, if_true: nat) -> ConstraintModel {
    chosen_terms(
        m.variable_to_product(bit.variable.0)->Some_0,
        if_true,
        m.variable_to_product(bit.minus_one_model())->Some_0,
        ssub(0, if_false),
    ).weight_variable(m.variables.len() as usize, ssub(0, 1))
}

/// The circuit after a selection between two constants: with a secret
/// variable for what is chosen, no new product, and the one constraint
/// that defines what is chosen.
pub open spec fn select_constant_model(m: CircuitModel, bit: Bit, if_false: nat, if_true: nat) -> CircuitModel {
    m.push_variable(
        VariableModel::Secret(selected(m.prover, bit.value, Some(if_false), Some(if_true))),
    ).constrain(constant_choice(m, bit, if_false, if_true))
}

impl Bit {
    /// The variable that holds the bit less one.
    pub open spec fn minus_one_model(self) -> usize {
        self.minus_one.0
    }

    /// Whether the bit's two variables can enter a product in a circuit,
    /// and the prover knows the bit.
    pub open spec fn usable_in(self, m: CircuitModel) -> bool {
        &&& m.operand(self.variable.0)
        &&& m.operand(self.minus_one_model())
        &&& m.prover ==> self.value is Some
    }

    /// Makes a bit of an existing variable.
    pub fn new_from_var(circuit: &mut Circuit, bit: VariableReference) -> (r: Bit)
        requires
            old(circuit).well_formed(),
            old(circuit)@.operand(bit.0),
        ensures
            final(circuit).well_formed(),
            final(circuit)@ == bit_model(old(circuit)@, bit.0),
            r.variable == bit,
            r.minus_one_model() == old(circuit)@.variables.len(),
            r.usable_in(final(circuit)@),
            r.value == match old(circuit)@.variables[bit.0 as int].value() {
                Some(v) => Some(v == 1),
                None => None,
            },
            forall|x: usize| old(circuit)@.operand(x) ==> final(circuit)@.operand(x),
    {
        let ghost before = circuit@;
        proof {
            circuit.view_facts();
            assert(before.variable_ok(bit.0 as int));
        }
        let l = bit;
        let value = circuit.unchecked_value(l);
        let less = match value {
            Some(v) => Some(v.sub(&Scalar::one())),
            None => None,
        };
        let r = circuit.add_secret_input(less);
        let ((l_prod, r_prod, o_prod), _) = circuit.product(l, r);
        circuit.equals_constant(o_prod, Scalar::zero());
        let mut l_minus_one = Constraint::new("l_minus_one");
        l_minus_one.weight(l_prod, Scalar::one());
        l_minus_one.weight(r_prod, Scalar::one().neg());
        l_minus_one.rhs_offset(Scalar::one());
        proof {
            let empty = ConstraintModel::empty("l_minus_one"@);
            assert(circuit@.constraint_fits(empty));
            lemma_weight_fits(circuit@, empty, l_prod, 1);
            lemma_weight_fits(circuit@, empty.weight(l_prod, 1), r_prod, ssub(0, 1));
        }
        circuit.constrain(l_minus_one);
        Bit {
            value: match value {
                Some(v) => Some(v.ct_eq(&Scalar::one())),
                None => None,
            },
            variable: l,
            minus_one: r,
        }
    }

    /// Makes a bit of a choice: a new secret input that is one if the
    /// choice is set and zero otherwise.
    pub fn new_from_choice(circuit: &mut Circuit, choice: Option<bool>) -> (r: Bit)
        requires
            old(circuit).well_formed(),
            old(circuit)@.prover == (choice is Some),
        ensures
            final(circuit).well_formed(),
            final(circuit)@ == bit_model(
                old(circuit)@.push_variable(
                    VariableModel::Secret(
                        match choice {
                            Some(c) => Some(
                                if c {
                                    1nat
                                } else {
                                    0nat
                                },
                            ),
                            None => None,
                        },
                    ),
                ),
                old(circuit)@.variables.len() as usize,
            ),
            r.variable.0 == old(circuit)@.variables.len(),
            r.usable_in(final(circuit)@),
            r.value == choice,
            forall|x: usize| old(circuit)@.operand(x) ==> final(circuit)@.operand(x),
    {
        let bit = match choice {
            Some(c) => Some(
                if c {
                    Scalar::one()
                } else {
                    Scalar::zero()
                },
            ),
            None => None,
        };
        let var = circuit.add_secret_input(bit);
        Bit::new_from_var(circuit, var)
    }

    /// Selects between two variables by the bit, with the two products
    /// `lo = bit * if_true` and `ro = (bit - 1) * if_false` and the
    /// constraint `lo - ro - chosen = 0`. What is chosen is a new secret
    /// variable. No product uses it yet, so the constraint weighs the
    /// variable itself; the weight goes to the role that the variable
    /// gets when a product first uses it.
    pub fn select(&self, circuit: &mut Circuit, if_false: VariableReference, if_true: VariableReference) -> (r: VariableReference)
        requires
            old(circuit).well_formed(),
            self.usable_in(old(circuit)@),
            old(circuit)@.operand(if_false.0),
            old(circuit)@.operand(if_true.0),
        ensures
            final(circuit).well_formed(),
            final(circuit)@ == select_model(old(circuit)@, *self, if_false.0, if_true.0),
            r.0 == old(circuit)@.variables.len(),
            final(circuit)@.operand(r.0),
            forall|x: usize| old(circuit)@.operand(x) ==> final(circuit)@.operand(x),
    {
        proof {
            circuit.view_facts();
            assert(circuit@.variable_ok(if_false.0 as int));
            assert(circuit@.variable_ok(if_true.0 as int));
        }
        let false_var = circuit.unchecked_value(if_false);
        let true_var = circuit.unchecked_value(if_true);
        let chosen = if circuit.prover() {
            match (self.value, false_var, true_var) {
                (Some(bit), Some(f), Some(t)) => Some(Scalar::conditional_select(&f, &t, bit)),
                _ => None,
            }
        } else {
            None
        };
        let ghost before = circuit@;
        let ghost picked = VariableModel::Secret(optional_value(chosen));
        let chosen = circuit.add_secret_input(chosen);
        let ghost m1 = circuit@;
        let ((_, _, lo), _) = circuit.product(self.variable, if_true);
        let ghost m2 = circuit@;
        let ((_, _, ro), _) = circuit.product(self.minus_one, if_false);
        let mut chosen_constraint = Constraint::new("chosen");
        chosen_constraint.weight(lo, Scalar::one());
        chosen_constraint.weight(ro, Scalar::one().neg());
        proof {
            let empty = ConstraintModel::empty("chosen"@);
            assert(circuit@.constraint_fits(empty));
            lemma_weight_fits(circuit@, empty, lo, 1);
            lemma_weight_fits(circuit@, empty.weight(lo, 1), ro, ssub(0, 1));
            // No product multiplies what is chosen.
            lemma_fresh_unused(before, chosen.0);
            assert(m1.unused(chosen.0));
            lemma_product_unused(m1, self.variable.0, if_true.0, chosen.0);
            lemma_product_unused(m2, self.minus_one.0, if_false.0, chosen.0);
            assert(m1.variables[chosen.0 as int] == picked);
            assert(circuit@.variables[chosen.0 as int] == picked);
            lemma_unused_not_in_use(circuit@, chosen.0);
        }
        circuit.constrain_variable(chosen_constraint, chosen, Scalar::one().neg());
        chosen
    }

    /// Selects between two constants by the bit, with one constraint and
    /// no product: `if_true l - if_false r - chosen = 0`, over the roles
    /// `l` and `r` that the bit's two variables have in their product.
    /// What is chosen is a new secret variable. No product uses it yet, so
    /// the constraint weighs the variable itself; the weight goes to the
    /// role that the variable gets when a product first uses it.
    ///
    /// The bit's two variables must be in use in a product, as those of
    /// every bit made by this module are; if they are not, nothing is
    /// selected and the circuit stays as it is.
    pub fn select_constant(&self, circuit: &mut Circuit, if_false: Scalar, if_true: Scalar) -> (r: Option<VariableReference>)
        requires
            old(circuit).well_formed(),
            self.usable_in(old(circuit)@),
        ensures
            final(circuit).well_formed(),
            forall|x: usize| old(circuit)@.operand(x) ==> final(circuit)@.operand(x),
            r is Some <==> self.in_use(old(circuit)@),
            r is Some ==> r->Some_0.0 == old(circuit)@.variables.len() && final(circuit)@.operand(r->Some_0.0)
                && final(circuit)@ == select_constant_model(old(circuit)@, *self, if_false@, if_true@),
            r is None ==> final(circuit)@ == old(circuit)@,
            final(circuit)@.products == old(circuit)@.products,
            r is Some ==> final(circuit)@.constraints == old(circuit)@.constraints.push(
                constant_choice(old(circuit)@, *self, if_false@, if_true@),
            ),
            r is None ==> final(circuit)@.constraints == old(circuit)@.constraints,
            r is Some ==> final(circuit)@.variables == old(circuit)@.variables.push(
                VariableModel::Secret(selected(old(circuit)@.prover, self.value, Some(if_false@), Some(if_true@))),
            ),
    {
        proof {
            circuit.view_facts();
            crate::circuit::lemma_variable_to_product(circuit@, self.variable.0);
            crate::circuit::lemma_variable_to_product(circuit@, self.minus_one.0);
        }
        let (l, r) = match (circuit.variable_to_product(self.variable), circuit.variable_to_product(self.minus_one)) {
            (Some(l), Some(r)) => (l, r),
            _ => {
                return None;
            },
        };
        let ghost before = circuit@;
        let chosen = if circuit.prover() {
            match self.value {
                Some(bit) => Some(Scalar::conditional_select(&if_false, &if_true, bit)),
                None => None,
            }
        } else {
            None
        };
        let ghost picked = VariableModel::Secret(optional_value(chosen));
        let chosen = circuit.add_secret_input(chosen);
        let mut chosen_constraint = Constraint::new("chosen");
        chosen_constraint.weight(l, if_true);
        chosen_constraint.weight(r, if_false.neg());
        proof {
            circuit.view_facts();
            let empty = ConstraintModel::empty("chosen"@);
            assert(circuit@.constraint_fits(empty));
            assert(l.product_model() < before.products.len());
            assert(r.product_model() < before.products.len());
            lemma_weight_fits(circuit@, empty, l, if_true@);
            lemma_weight_fits(circuit@, empty.weight(l, if_true@), r, ssub(0, if_false@));
            // No product multiplies what is chosen.
            lemma_fresh_unused(before, chosen.0);
            assert(circuit@.unused(chosen.0));
            assert(circuit@.variables[chosen.0 as int] == picked);
            lemma_unused_not_in_use(circuit@, chosen.0);
        }
        circuit.constrain_variable(chosen_constraint, chosen, Scalar::one().neg());
        Some(chosen)
    }

    /// Whether the bit's two variables are in use in a product of a
    /// circuit.
    pub open spec fn in_use(self, m: CircuitModel) -> bool {
        m.variable_to_product(self.variable.0) is Some && m.variable_to_product(self.minus_one_model()) is Some
    }
}


/// A bit is zero or one. If a witness satisfies the two constraints that
/// make a variable a bit, that the output of its product is zero and that
/// its left less its right is one, then the left of the product is zero or
/// one, and the right is the left less one. The scalar field is a field:
/// its modulus is prime.
pub proof fn lemma_bit_is_binary(product: usize, vl: usize, vr: usize, vo: usize, al: Seq<nat>, ar: Seq<nat>, v: Seq<nat>)
    requires
        is_prime(modulus()),
        product < al.len() == ar.len(),
        al[product as int] < modulus(),
        ar[product as int] < modulus(),
        ({
            let l = ProductReference::Left { product, variable: vl };
            let r = ProductReference::Right { product, variable: vr };
            let o = ProductReference::Output { product, variable: vo };
            &&& constraint_eval(constant_constraint(o, 0, 0), al, ar, v) == constant_constraint(o, 0, 0).c
            &&& constraint_eval(minus_one_constraint(l, r), al, ar, v) == minus_one_constraint(l, r).c
        }),
    ensures
        al[product as int] == 0 || al[product as int] == 1,
        ar[product as int] == ssub(al[product as int], 1),
{
    let q = modulus();
    let a = al[product as int];
    let b = ar[product as int];
    let l = ProductReference::Left { product, variable: vl };
    let r = ProductReference::Right { product, variable: vr };
    let o = ProductReference::Output { product, variable: vo };
    let zero = constant_constraint(o, 0, 0);
    let one = minus_one_constraint(l, r);
    let empty = Seq::<(usize, nat)>::empty();
    reveal_with_fuel(crate::compile::add_row, 3);
    reveal_with_fuel(crate::compile::sub_row, 3);
    reveal_with_fuel(crate::circuit::find_weight, 3);
    assert(zero.wo =~= seq![(product, 1nat)]);
    assert(zero.wl =~= empty && zero.wr =~= empty && zero.wv =~= empty);
    assert(one.wl =~= seq![(product, 1nat)]);
    assert(one.wr =~= seq![(product, ssub(0, 1))]);
    assert(one.wo =~= empty && one.wv =~= empty);
    let ab = smul(a, b);
    vstd::arithmetic::div_mod::lemma_mod_bound((a * b) as int, q as int);
    // The first constraint: 0 + 1 (a b) = 0.
    assert(smul(1, ab) == ab) by {
        assert(1 * ab == ab);
        vstd::arithmetic::div_mod::lemma_small_mod(ab, q);
    }
    assert(sadd(0, ab) == ab) by {
        vstd::arithmetic::div_mod::lemma_small_mod(ab, q);
    }
    assert(ab == 0);
    lemma_no_zero_divisors(a, b, q);
    // The second constraint: 0 + 1 a + (-1) b = 1.
    assert(smul(1, a) == a) by {
        assert(1 * a == a);
        vstd::arithmetic::div_mod::lemma_small_mod(a, q);
    }
    assert(sadd(0, a) == a) by {
        vstd::arithmetic::div_mod::lemma_small_mod(a, q);
    }
    let minus = ssub(0, 1);
    assert(minus == q - 1) by {
        vstd::arithmetic::div_mod::lemma_mod_add_multiples_vanish(-1, q as int);
        vstd::arithmetic::div_mod::lemma_small_mod((q - 1) as nat, q);
    }
    assert(sadd(a, smul(minus, b)) == 1);
    if a == 0 {
        // (q - 1) b = 1 (mod q), so b = q - 1.
        vstd::arithmetic::div_mod::lemma_mod_bound((minus * b) as int, q as int);
        vstd::arithmetic::div_mod::lemma_small_mod(smul(minus, b), q);
        assert(smul(minus, b) == 1);
        // (q - 1) b + b = q b, so 1 + b = 0 (mod q).
        assert((minus * b + b) as int == q * b) by (nonlinear_arith)
            requires
                minus == q - 1,
        ;
        vstd::arithmetic::div_mod::lemma_mod_multiples_basic(b as int, q as int);
        assert((q * b) % q == 0) by {
            assert(q * b == b * q) by (nonlinear_arith);
        }
        vstd::arithmetic::div_mod::lemma_add_mod_noop((minus * b) as int, b as int, q as int);
        vstd::arithmetic::div_mod::lemma_small_mod(b, q);
        assert((1 + b) % q == 0);
        if b < q - 1 {
            vstd::arithmetic::div_mod::lemma_small_mod(1 + b, q);
        }
        assert(b == q - 1);
        assert(ssub(0, 1) == b);
    } else {
        assert(b == 0);
        assert(smul(minus, 0) == 0) by {
            assert(minus * 0 == 0);
            vstd::arithmetic::div_mod::lemma_small_mod(0, q);
        }
        vstd::arithmetic::div_mod::lemma_small_mod(a, q);
        assert(a == 1);
        assert(ssub(1, 1) == 0) by {
            vstd::arithmetic::div_mod::lemma_small_mod(0, q);
        }
    }
}

/// A selection picks by the bit: the value if the bit is set, the other
/// if it is not. If a witness satisfies the constraint of a selection,
/// `lo - ro - chosen = 0` with `lo = b * if_true` and
/// `ro = (b - 1) * if_false`, and `b` is zero or one, then `chosen` is
/// `if_false` for zero and `if_true` for one.
pub proof fn lemma_select_picks(b: nat, if_false: nat, if_true: nat, chosen: nat)
    requires
        modulus() > 1,
        b == 0 || b == 1,
        if_false < modulus(),
        if_true < modulus(),
        chosen < modulus(),
        sadd(
            sadd(smul(ssub(0, 1), chosen), smul(1, smul(b, if_true))),
            smul(ssub(0, 1), smul(ssub(b, 1), if_false)),
        ) == 0,
    ensures
        chosen == if b == 1 {
            if_true
        } else {
            if_false
        },
        if_false != if_true ==> (chosen == if_false <==> b == 0),
{
    let q = modulus();
    let minus = ssub(0, 1);
    assert(minus == q - 1) by {
        vstd::arithmetic::div_mod::lemma_mod_add_multiples_vanish(-1, q as int);
        vstd::arithmetic::div_mod::lemma_small_mod((q - 1) as nat, q);
    }
    let picked = if b == 1 {
        if_true
    } else {
        if_false
    };
    // lo - ro is what is picked.
    let lo = smul(1, smul(b, if_true));
    let ro = smul(minus, smul(ssub(b, 1), if_false));
    assert(sadd(lo, ro) == picked) by {
        if b == 1 {
            assert(1 * if_true == if_true);
            vstd::arithmetic::div_mod::lemma_small_mod(if_true, q);
            assert(ssub(1, 1) == 0) by {
                vstd::arithmetic::div_mod::lemma_small_mod(0, q);
            }
            assert(0 * if_false == 0);
            assert(minus * 0 == 0);
            vstd::arithmetic::div_mod::lemma_small_mod(0, q);
        } else {
            assert(0 * if_true == 0);
            assert(1 * 0 == 0);
            vstd::arithmetic::div_mod::lemma_small_mod(0, q);
            // (q - 1) ((q - 1) x) = x (mod q)
            let x = if_false;
            vstd::arithmetic::div_mod::lemma_mul_mod_noop_general(minus as int, (minus * x) as int, q as int);
            assert(minus * (minus * x) == q * ((q - 2) * x) + x) by (nonlinear_arith)
                requires
                    minus == q - 1,
            ;
            vstd::arithmetic::div_mod::lemma_mod_multiples_vanish((q - 2) * x, x as int, q as int);
            assert(q * ((q - 2) * x) == ((q - 2) * x) * q) by (nonlinear_arith);
            vstd::arithmetic::div_mod::lemma_small_mod(x, q);
            vstd::arithmetic::div_mod::lemma_small_mod(minus, q);
        }
    }
    // -chosen + picked = 0, so chosen is what is picked.
    let neg = smul(minus, chosen);
    vstd::arithmetic::div_mod::lemma_mod_bound((minus * chosen) as int, q as int);
    vstd::arithmetic::div_mod::lemma_mod_bound((1 * smul(b, if_true)) as int, q as int);
    vstd::arithmetic::div_mod::lemma_mod_bound((minus * smul(ssub(b, 1), if_false)) as int, q as int);
    assert(sadd(sadd(neg, lo), ro) == sadd(neg, picked)) by {
        vstd::arithmetic::div_mod::lemma_add_mod_noop((neg + lo) as int, ro as int, q as int);
        vstd::arithmetic::div_mod::lemma_add_mod_noop(neg as int, (lo + ro) as int, q as int);
        vstd::arithmetic::div_mod::lemma_small_mod(neg, q);
        vstd::arithmetic::div_mod::lemma_small_mod(ro, q);
    }
    assert((neg + picked) % q == 0);
    // neg + chosen = 0 (mod q) as well.
    assert((minus * chosen + chosen) as int == q * chosen) by (nonlinear_arith)
        requires
            minus == q - 1,
    ;
    vstd::arithmetic::div_mod::lemma_mod_multiples_basic(chosen as int, q as int);
    assert((q * chosen) % q == 0) by {
        assert(q * chosen == chosen * q) by (nonlinear_arith);
    }
    vstd::arithmetic::div_mod::lemma_add_mod_noop((minus * chosen) as int, chosen as int, q as int);
    vstd::arithmetic::div_mod::lemma_small_mod(chosen, q);
    assert((neg + chosen) % q == 0);
    // Two residues with the same sum with neg are equal.
    if neg == 0 {
        vstd::arithmetic::div_mod::lemma_small_mod(picked, q);
        vstd::arithmetic::div_mod::lemma_small_mod(chosen, q);
    } else {
        vstd::arithmetic::div_mod::lemma_fundamental_div_mod((neg + picked) as int, q as int);
        vstd::arithmetic::div_mod::lemma_fundamental_div_mod((neg + chosen) as int, q as int);
        let k1 = (neg + picked) / q;
        let k2 = (neg + chosen) / q;
        assert(neg + picked == q * k1);
        assert(neg + chosen == q * k2);
        assert(k1 == 1) by (nonlinear_arith)
            requires
                neg + picked == q * k1,
                0 < neg < q,
                0 <= picked < q,
        ;
        assert(k2 == 1) by (nonlinear_arith)
            requires
                neg + chosen == q * k2,
                0 < neg < q,
                0 <= chosen < q,
        ;
    }
}


/// In a circuit that compiles for the prover, a bit is zero or one: if no
/// constraint is faulty, and the two constraints of a bit over a product
/// are among the circuit's constraints, then the left of that product is
/// zero or one and its right is the left less one. So a circuit with a
/// bit whose witness is neither fails to compile, naming a constraint.
/// The scalar field is a field: its modulus is prime.
pub proof fn lemma_compiled_bit_is_binary(
    m: CircuitModel,
    product: usize,
    vl: usize,
    vr: usize,
    vo: usize,
    zero: int,
    one: int,
)
    requires
        is_prime(modulus()),
        m.first_faulty(m.constraints.len()) is None,
        product < m.products.len(),
        m.left_values()[product as int] < modulus(),
        m.right_values()[product as int] < modulus(),
        0 <= zero < m.constraints.len(),
        0 <= one < m.constraints.len(),
        m.constraints[zero] == constant_constraint(ProductReference::Output { product, variable: vo }, 0, 0),
        m.constraints[one] == minus_one_constraint(
            ProductReference::Left { product, variable: vl },
            ProductReference::Right { product, variable: vr },
        ),
    ensures
        m.left_values()[product as int] == 0 || m.left_values()[product as int] == 1,
        m.right_values()[product as int] == ssub(m.left_values()[product as int], 1),
{
    lemma_all_satisfied(m, m.constraints.len(), zero);
    lemma_all_satisfied(m, m.constraints.len(), one);
    lemma_bit_is_binary(product, vl, vr, vo, m.left_values(), m.right_values(), m.committed_values());
}

/// A prover's circuit in which a variable was just made a bit compiles
/// only if the variable holds zero or one.
pub proof fn lemma_bit_circuit_is_binary(m: CircuitModel, bit: usize)
    requires
        is_prime(modulus()),
        m.well_formed(),
        m.prover,
        m.operand(bit),
        m.variables.len() < usize::MAX,
        m.products.len() < usize::MAX,
        m.variables[bit as int].value()->Some_0 < modulus(),
        bit_model(m, bit).first_faulty(bit_model(m, bit).constraints.len()) is None,
    ensures
        m.variables[bit as int].value() == Some(0nat) || m.variables[bit as int].value() == Some(1nat),
{
    let r = m.variables.len() as usize;
    let value = m.variables[bit as int].value();
    assert(m.variable_ok(bit as int));
    let with_r = m.push_variable(VariableModel::Secret(minus_one_value(value)));
    let refs = with_r.product_references(bit, r).0;
    let made = with_r.product(bit, r);
    let n = bit_model(m, bit);
    let product = refs.0.product_model();
    crate::circuit::lemma_find_product(with_r.products, bit, r);
    assert(made.products == n.products);
    assert(made.variables == n.variables);
    if find_product(with_r.products, bit, r) is Some {
        assert(made == with_r);
        assert(product as int == find_product(with_r.products, bit, r)->Some_0);
    } else {
        assert(product as int == with_r.products.len());
        assert(made.products == with_r.products.push(
            Product { left: bit, right: r, variable: with_r.variables.len() as usize },
        ));
    }
    assert(product < n.products.len());
    assert(n.products[product as int].left == bit);
    assert(n.products[product as int].right == r);
    assert(n.variables[bit as int] == m.variables[bit as int]);
    assert(n.variables[r as int] == VariableModel::Secret(minus_one_value(value)));
    assert(n.left_values()[product as int] == value->Some_0);
    assert(n.right_values()[product as int] == ssub(value->Some_0, 1));
    let len = n.constraints.len();
    assert(n.constraints[len - 2] == constant_constraint(refs.2, 0, 0));
    assert(n.constraints[len - 1] == minus_one_constraint(refs.0, refs.1));
    lemma_compiled_bit_is_binary(
        n,
        product,
        bit,
        r,
        refs.2.variable_model(),
        len - 2,
        len - 1,
    );
}


/// The value in a role of a product, at a witness.
pub open spec fn role_value(r: ProductReference, al: Seq<nat>, ar: Seq<nat>) -> nat {
    match r {
        ProductReference::Left { product, .. } => al[product as int],
        ProductReference::Right { product, .. } => ar[product as int],
        ProductReference::Output { product, .. } => smul(al[product as int], ar[product as int]),
    }
}

/// In a circuit that compiles for the prover, a selection picks by the
/// bit. If no constraint is faulty, and the constraint of a selection is
/// among the circuit's constraints, over the products `lo = b * if_true`
/// and `ro = (b - 1) * if_false` of a bit `b` and with what is chosen on
/// the left or the right of a product, then what is chosen is `if_true`
/// where the bit is one and `if_false` where it is zero.
pub proof fn lemma_compiled_select_picks(
    m: CircuitModel,
    lo: usize,
    vlo: usize,
    ro: usize,
    vro: usize,
    chosen: ProductReference,
    at: int,
)
    requires
        modulus() > 1,
        m.first_faulty(m.constraints.len()) is None,
        0 <= at < m.constraints.len(),
        lo != ro,
        lo < m.products.len(),
        ro < m.products.len(),
        chosen.product_model() < m.products.len(),
        !(chosen is Output),
        m.constraints[at] == chosen_terms(
            ProductReference::Output { product: lo, variable: vlo },
            1,
            ProductReference::Output { product: ro, variable: vro },
            ssub(0, 1),
        ).weight(chosen, ssub(0, 1)),
        m.left_values()[lo as int] == 0 || m.left_values()[lo as int] == 1,
        m.left_values()[ro as int] == ssub(m.left_values()[lo as int], 1),
        m.right_values()[lo as int] < modulus(),
        m.right_values()[ro as int] < modulus(),
        role_value(chosen, m.left_values(), m.right_values()) < modulus(),
    ensures
        role_value(chosen, m.left_values(), m.right_values()) == if m.left_values()[lo as int] == 1 {
            m.right_values()[lo as int]
        } else {
            m.right_values()[ro as int]
        },
{
    let q = modulus();
    let al = m.left_values();
    let ar = m.right_values();
    let v = m.committed_values();
    let c = m.constraints[at];
    let minus = ssub(0, 1);
    let picked = role_value(chosen, al, ar);
    let empty = Seq::<(usize, nat)>::empty();
    lemma_all_satisfied(m, m.constraints.len(), at);
    reveal_with_fuel(crate::compile::add_row, 3);
    reveal_with_fuel(crate::compile::sub_row, 3);
    reveal_with_fuel(crate::circuit::find_weight, 3);
    assert(c.wo =~= seq![(lo, 1nat), (ro, minus)]);
    assert(c.wv =~= empty);
    assert(c.c == 0);
    let first = smul(minus, picked);
    vstd::arithmetic::div_mod::lemma_mod_bound((minus * picked) as int, q as int);
    assert(sadd(0, first) == first) by {
        vstd::arithmetic::div_mod::lemma_small_mod(first, q);
    }
    match chosen {
        ProductReference::Left { product, .. } => {
            assert(c.wl =~= seq![(product, minus)]);
            assert(c.wr =~= empty);
        },
        ProductReference::Right { product, .. } => {
            assert(c.wl =~= empty);
            assert(c.wr =~= seq![(product, minus)]);
        },
        ProductReference::Output { .. } => {},
    }
    let ao = Seq::new(al.len(), |i: int| smul(al[i], ar[i]));
    assert(ao[lo as int] == smul(al[lo as int], ar[lo as int]));
    assert(ao[ro as int] == smul(al[ro as int], ar[ro as int]));
    assert(constraint_eval(c, al, ar, v) == sadd(
        sadd(first, smul(1, ao[lo as int])),
        smul(minus, ao[ro as int]),
    ));
    lemma_select_picks(al[lo as int], ar[ro as int], ar[lo as int], picked);
}

} // verus!
