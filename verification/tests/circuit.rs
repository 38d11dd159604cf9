use threshold_core::bit::Bit;
use threshold_core::circuit::{
    BindError, Circuit, Commitment, Constraint, ProductReference, VariableReference,
    VectorCommitmentReference,
};
use threshold_core::point::Point;
use threshold_core::scalar::Scalar;

fn s(x: u64) -> Scalar {
    Scalar::from_u64(x)
}

// Distinct points: (start + k) G for k = 0 .. count.
fn points(start: usize, count: usize) -> Vec<Point> {
    let g = Point::generator();
    let mut p = g;
    for _ in 0..start {
        p = p.add(&g);
    }
    let mut out = vec![];
    for _ in 0..count {
        out.push(p);
        p = p.add(&g);
    }
    out
}

fn circuit(prover: bool, commitments: Option<Vec<Point>>) -> Circuit {
    let all = points(0, 34);
    Circuit::new(
        all[0],
        all[1],
        all[2..10].to_vec(),
        all[10..18].to_vec(),
        all[18..26].to_vec(),
        all[26..34].to_vec(),
        prover,
        commitments,
    )
}

#[test]
fn product_gate_and_satisfied_constraint() {
    let mut c = circuit(true, None);
    let a = c.add_secret_input(Some(s(3)));
    let b = c.add_secret_input(Some(s(5)));
    let ((l, r, o), out) = c.product(a, b);
    assert_eq!(l, ProductReference::Left { product: 0, variable: 0 });
    assert_eq!(r, ProductReference::Right { product: 0, variable: 1 });
    assert_eq!(o, ProductReference::Output { product: 0, variable: 2 });
    assert_eq!(out, VariableReference(2));
    assert_eq!(c.unchecked_value(out), Some(s(15)));
    assert_eq!(c.variable(o), out);

    // 2 l + r - o = -4
    let mut constraint = Constraint::new("sum");
    constraint.weight(l, s(2));
    constraint.weight(r, s(1));
    constraint.weight(o, s(1).neg());
    constraint.rhs_offset(s(4).neg());
    c.constrain(constraint);
    c.equals_constant(o, s(15));

    let compiled = c.compile().ok().unwrap();
    let witness = compiled.witness.unwrap();
    assert_eq!(witness.al.0, vec![s(3)]);
    assert_eq!(witness.ar.0, vec![s(5)]);
    assert_eq!(compiled.statement.wl.length(), 2);
    assert_eq!(compiled.statement.wl.width(), 1);
    assert_eq!(compiled.statement.wl.row(0), &vec![(0usize, s(2))]);
    assert_eq!(compiled.statement.wo.row(1), &vec![(0usize, s(15).invert().unwrap())]);
    assert_eq!(compiled.statement.c.0, vec![s(4).neg(), s(1)]);
    // Nothing is bound: all three roles of the product are among the others.
    assert_eq!(compiled.others.len(), 3);
    assert_eq!(compiled.others[0].value, Some(s(3)));
    assert_eq!(compiled.others[1].value, Some(s(5)));
    assert_eq!(compiled.others[2].value, Some(s(15)));
    assert!(compiled.vector_commitments.is_empty());
}

#[test]
fn faulty_constraint_is_named() {
    let mut c = circuit(true, None);
    let a = c.add_secret_input(Some(s(3)));
    let b = c.add_secret_input(Some(s(5)));
    let ((l, _, o), _) = c.product(a, b);
    c.equals_constant(l, s(3));
    let mut wrong = Constraint::new("wrong");
    wrong.weight(o, s(1));
    wrong.rhs_offset(s(16));
    c.constrain(wrong);
    let mut later = Constraint::new("later");
    later.weight(o, s(1));
    later.rhs_offset(s(17));
    c.constrain(later);
    match c.compile() {
        Err(e) => assert_eq!(e.label, "wrong"),
        Ok(_) => panic!("15 is not 16"),
    }
}

#[test]
fn verifier_compiles_without_witness() {
    let mut c = circuit(false, Some(vec![]));
    let a = c.add_secret_input(None);
    let b = c.add_secret_input(None);
    let ((_, _, o), out) = c.product(a, b);
    assert_eq!(c.unchecked_value(out), None);
    let mut wrong = Constraint::new("unchecked");
    wrong.weight(o, s(1));
    wrong.rhs_offset(s(16));
    c.constrain(wrong);
    let compiled = c.compile().ok().unwrap();
    assert!(compiled.witness.is_none());
    assert_eq!(compiled.others.len(), 3);
    assert_eq!(compiled.others[0].value, None);
}

#[test]
fn repeated_product_is_cached_and_reuse_is_tied() {
    let mut c = circuit(true, None);
    let a = c.add_secret_input(Some(s(2)));
    let b = c.add_secret_input(Some(s(7)));
    assert_eq!(c.variable_to_product(a), None);
    let first = c.product(a, b);
    let again = c.product(a, b);
    assert_eq!(first, again);
    assert_eq!(c.variable_to_product(a), Some(ProductReference::Left { product: 0, variable: 0 }));
    assert_eq!(c.variable_to_product(b), Some(ProductReference::Right { product: 0, variable: 1 }));
    assert_eq!(c.variable_to_product(first.1), Some(ProductReference::Output { product: 0, variable: 2 }));

    // b on the left of a second product: one equality constraint ties it to its first use,
    // and one ties the first product's output to its use on the right.
    let ((l2, r2, _), _) = c.product(b, first.1);
    assert_eq!(l2, ProductReference::Left { product: 1, variable: 1 });
    assert_eq!(r2, ProductReference::Right { product: 1, variable: 2 });
    let compiled = c.compile().ok().unwrap();
    assert_eq!(compiled.statement.c.0.len(), 2);
    assert_eq!(compiled.statement.wl.row(0), &vec![(1usize, s(1))]);
    assert_eq!(compiled.statement.wr.row(0), &vec![(0usize, s(1).neg())]);
    assert_eq!(compiled.statement.wr.row(1), &vec![(1usize, s(1))]);
    assert_eq!(compiled.statement.wo.row(1), &vec![(0usize, s(1).neg())]);
    let witness = compiled.witness.unwrap();
    assert_eq!(witness.al.0, vec![s(2), s(7)]);
    assert_eq!(witness.ar.0, vec![s(7), s(14)]);
}

#[test]
fn weights_accumulate() {
    let mut c = circuit(true, None);
    let a = c.add_secret_input(Some(s(4)));
    let ((l, _, _), _) = c.product(a, a);
    let mut constraint = Constraint::new("twice");
    constraint.weight(l, s(2));
    constraint.weight(l, s(3));
    constraint.rhs_offset(s(20));
    c.constrain(constraint);
    c.constrain_equality(l, l);
    let compiled = c.compile().ok().unwrap();
    // Equating a role with itself adds nothing.
    assert_eq!(compiled.statement.c.0.len(), 1);
    assert_eq!(compiled.statement.wl.row(0), &vec![(0usize, s(5))]);
}

#[test]
fn committed_inputs_enter_constraints() {
    let mut c = circuit(true, None);
    let g = points(0, 2);
    let opening = Commitment::new(s(9), s(1234));
    let point = opening.calculate(&g[0], &g[1]);
    assert_eq!(point, g[0].mul(&s(9)).add(&g[1].mul(&s(1234))));
    let committed = c.add_committed_input(Some(opening), point);
    let a = c.add_secret_input(Some(s(3)));
    let ((_, _, o), _) = c.product(a, a);
    // o - v = 0
    let mut constraint = Constraint::new("opens");
    constraint.weight(o, s(1));
    constraint.weight_commitment(committed, s(1));
    c.constrain(constraint);
    let compiled = c.compile().ok().unwrap();
    assert_eq!(compiled.statement.v.0, vec![point]);
    assert_eq!(compiled.statement.wv.width(), 1);
    assert_eq!(compiled.statement.wv.row(0), &vec![(0usize, s(1))]);
    let witness = compiled.witness.unwrap();
    assert_eq!(witness.v.0, vec![s(9)]);
    assert_eq!(witness.gamma.0, vec![s(1234)]);
    assert_eq!(Commitment::zero().value, s(0));
    assert_eq!(Commitment::masking(&[0; 128], s(5)).mask, s(0));
}

#[test]
fn binding_overrides_generators() {
    let mut c = circuit(true, None);
    let a = c.add_secret_input(Some(s(3)));
    let b = c.add_secret_input(Some(s(5)));
    let ((l, r, o), _) = c.product(a, b);
    let vc = c.allocate_vector_commitment();
    assert_eq!(vc, VectorCommitmentReference(0));
    let custom = points(100, 1)[0];
    assert_eq!(c.bind(vc, o, Some(custom)), Ok(()));
    assert_eq!(c.bind(vc, l, None), Ok(()));
    assert_eq!(c.bind(vc, l, None), Err(BindError::AlreadyBound));
    let other = c.allocate_vector_commitment();
    assert_eq!(c.bind(other, o, None), Err(BindError::AlreadyBound));

    let h = c.h();
    let all = points(0, 34);
    let commitment = c.finalize_commitment(vc, Some(s(11)));
    // blind h + 3 g_bold1[0] + 15 custom, in the order of references: left before output.
    assert_eq!(commitment, h.mul(&s(11)).add(&all[2].mul(&s(3))).add(&custom.mul(&s(15))));
    assert_eq!(c.bind(vc, r, None), Err(BindError::Finalized));

    let compiled = c.compile().ok().unwrap();
    assert_eq!(compiled.statement.g_bold2.0[0], custom);
    assert_eq!(compiled.statement.g_bold1.0[0], all[2]);
    assert_eq!(compiled.vector_commitments.len(), 2);
    assert_eq!(compiled.vector_commitments[0].len(), 2);
    assert_eq!(compiled.vector_commitments[0][0].value, Some(s(3)));
    assert_eq!(compiled.vector_commitments[0][0].generator, all[2]);
    assert_eq!(compiled.vector_commitments[0][1].value, Some(s(15)));
    assert_eq!(compiled.vector_commitments[0][1].generator, custom);
    assert!(compiled.vector_commitments[1].is_empty());
    // Only the right role is left over.
    assert_eq!(compiled.others.len(), 1);
    assert_eq!(compiled.others[0].value, Some(s(5)));
    assert_eq!(compiled.others[0].generator, all[18]);
}

#[test]
fn verifier_returns_the_given_vector_commitment() {
    let given = points(50, 2);
    let mut c = circuit(false, Some(given.clone()));
    let vc = c.allocate_vector_commitment();
    assert_eq!(c.finalize_commitment(vc, None), given[0]);
    assert!(!c.prover());
}

#[test]
fn bit_is_zero_or_one() {
    for (value, ok) in [(0u64, true), (1, true), (2, false)] {
        let mut c = circuit(true, None);
        let var = c.add_secret_input(Some(s(value)));
        let bit = Bit::new_from_var(&mut c, var);
        assert_eq!(bit.value, Some(value == 1));
        match c.compile() {
            Ok(_) => assert!(ok),
            Err(e) => {
                assert!(!ok);
                assert_eq!(e.label, "constant_equality");
            }
        }
    }
}

#[test]
fn select_picks_by_the_bit() {
    for choice in [false, true] {
        let mut c = circuit(true, None);
        let x = c.add_secret_input(Some(s(10)));
        let y = c.add_secret_input(Some(s(20)));
        let bit = Bit::new_from_choice(&mut c, Some(choice));
        let chosen = bit.select(&mut c, x, y);
        assert_eq!(c.unchecked_value(chosen), Some(s(if choice { 20 } else { 10 })));
        let constant = bit.select_constant(&mut c, s(7), s(8)).unwrap();
        assert_eq!(c.unchecked_value(constant), Some(s(if choice { 8 } else { 7 })));
        // Both choices are used, and their constraints hold.
        c.product(chosen, constant);
        assert!(c.compile().is_ok());
    }
}

// The number of products and of constraints that a circuit compiles to.
fn size(c: Circuit) -> (usize, usize) {
    let compiled = c.compile().unwrap();
    (compiled.statement.wl.width(), compiled.statement.c.0.len())
}

fn label_of_fault(c: Circuit) -> &'static str {
    match c.compile() {
        Ok(_) => panic!("the circuit compiles"),
        Err(e) => e.label,
    }
}

#[test]
fn selecting_a_constant_adds_one_constraint_and_no_product() {
    for choice in [false, true] {
        let mut plain = circuit(true, None);
        let bit = Bit::new_from_choice(&mut plain, Some(choice));
        let x = plain.add_secret_input(Some(s(3)));
        plain.product(bit.variable, x);
        let (products, constraints) = size(plain);

        // The same circuit, with a constant selected before the last product,
        // which uses what was chosen in place of the bit.
        let mut c = circuit(true, None);
        let bit = Bit::new_from_choice(&mut c, Some(choice));
        let chosen = bit.select_constant(&mut c, s(7), s(8)).unwrap();
        assert_eq!(c.unchecked_value(chosen), Some(s(if choice { 8 } else { 7 })));
        assert!(c.variable_to_product(chosen).is_none());
        let x = c.add_secret_input(Some(s(3)));
        c.product(chosen, x);
        // One product as before; the equality that tied the bit to its first
        // use is gone, the constraint of the selection is there.
        assert_eq!(size(c), (products, constraints));

        // Without the selection and with a fresh variable in the product:
        // one constraint less.
        let mut c = circuit(true, None);
        Bit::new_from_choice(&mut c, Some(choice));
        let fresh = c.add_secret_input(Some(s(9)));
        let x = c.add_secret_input(Some(s(3)));
        c.product(fresh, x);
        assert_eq!(size(c), (products, constraints - 1));
    }
}

#[test]
fn selection_that_is_never_used_does_not_compile() {
    for prover in [true, false] {
        let given = if prover { None } else { Some(vec![]) };
        let mut c = circuit(prover, given);
        let bit = Bit::new_from_choice(&mut c, if prover { Some(true) } else { None });
        bit.select_constant(&mut c, s(7), s(8)).unwrap();
        assert_eq!(label_of_fault(c), "chosen");
    }
    let mut c = circuit(true, None);
    let x = c.add_secret_input(Some(s(10)));
    let y = c.add_secret_input(Some(s(20)));
    let bit = Bit::new_from_choice(&mut c, Some(false));
    bit.select(&mut c, x, y);
    assert_eq!(label_of_fault(c), "chosen");
}

#[test]
fn selecting_a_variable_adds_two_products() {
    for choice in [false, true] {
        let mut plain = circuit(true, None);
        plain.add_secret_input(Some(s(10)));
        plain.add_secret_input(Some(s(20)));
        Bit::new_from_choice(&mut plain, Some(choice));
        let (products, constraints) = size(plain);

        let mut c = circuit(true, None);
        let x = c.add_secret_input(Some(s(10)));
        let y = c.add_secret_input(Some(s(20)));
        let bit = Bit::new_from_choice(&mut c, Some(choice));
        let chosen = bit.select(&mut c, x, y);
        assert!(c.variable_to_product(chosen).is_none());
        c.product(chosen, chosen);
        // Two products of the selection and the one that uses what was
        // chosen; two equalities for the bit's variables and the constraint
        // of the selection.
        assert_eq!(size(c), (products + 3, constraints + 3));
    }
}

#[test]
fn constraint_on_a_variable_is_checked_in_its_role() {
    // 2 l - chosen = 0 with l = 5 holds for chosen = 10 and fails for 11.
    for (value, holds) in [(10, true), (11, false)] {
        let mut c = circuit(true, None);
        let l = c.add_secret_input(Some(s(5)));
        let r = c.add_secret_input(Some(s(1)));
        let ((l_ref, _, _), _) = c.product(l, r);
        let chosen = c.add_secret_input(Some(s(value)));
        let mut constraint = Constraint::new("doubled");
        constraint.weight(l_ref, s(2));
        c.constrain_variable(constraint, chosen, s(1).neg());
        let x = c.add_secret_input(Some(s(3)));
        c.product(x, chosen);
        match c.compile() {
            Ok(compiled) => {
                assert!(holds);
                assert_eq!(compiled.statement.c.0.len(), 1);
            }
            Err(e) => {
                assert!(!holds);
                assert_eq!(e.label, "doubled");
            }
        }
    }
}

#[test]
fn constraint_on_a_variable_without_a_role_does_not_compile() {
    // 1 v = 5 with v = 1 and v in no product.
    let mut c = circuit(true, None);
    let v = c.add_secret_input(Some(s(1)));
    let mut constraint = Constraint::new("five");
    constraint.rhs_offset(s(5));
    c.constrain_variable(constraint, v, s(1));
    assert_eq!(label_of_fault(c), "five");
}

#[test]
fn constraint_on_a_variable_in_use_weighs_its_role_at_once() {
    let mut c = circuit(true, None);
    let l = c.add_secret_input(Some(s(5)));
    let r = c.add_secret_input(Some(s(10)));
    let ((l_ref, _, _), _) = c.product(l, r);
    let mut constraint = Constraint::new("doubled");
    constraint.weight(l_ref, s(2));
    c.constrain_variable(constraint, r, s(1).neg());
    assert_eq!(size(c), (1, 1));
}
