use threshold_core::circuit::{Circuit, Constraint};
use threshold_core::compile::Opening;
use threshold_core::point::Point;
use threshold_core::proving::{vector_commitment_statement, well_formed};
use threshold_core::scalar::Scalar;

fn s(x: u64) -> Scalar {
    Scalar::from_u64(x)
}

fn points(start: usize, count: usize) -> Vec<Point> {
    let g = Point::generator();
    let mut p = g;
    for _ in 0..start {
        p = p.add(&g);
    }
    let mut out = vec![];
    for _ in 0..count {
        out.push(p);
        p = p.add(&g);
    }
    out
}

fn circuit(prover: bool, commitments: Option<Vec<Point>>) -> Circuit {
    let all = points(0, 18);
    Circuit::new(
        all[0],
        all[1],
        all[2..6].to_vec(),
        all[6..10].to_vec(),
        all[10..14].to_vec(),
        all[14..18].to_vec(),
        prover,
        commitments,
    )
}

#[test]
fn well_formed_commitment_opens_its_statements() {
    let p = points(20, 12);
    let openings = vec![
        Opening { value: Some(s(3)), generator: p[0] },
        Opening { value: Some(s(5)), generator: p[1] },
    ];
    let first_hs = p[2..5].to_vec();
    let second_hs = p[5..8].to_vec();
    let shown = well_formed((p[8], p[9]), &first_hs, &second_hs, &openings, s(7), p[10]);
    assert_eq!(shown.commitment, p[10].mul(&s(7)).add(&p[0].mul(&s(3))).add(&p[1].mul(&s(5))));
    assert_eq!(shown.witness.a.0, vec![s(3), s(5)]);
    assert_eq!(shown.witness.b.0, vec![s(0), s(0)]);
    assert_eq!(shown.witness.alpha, s(7));
    assert_eq!(shown.first.g_bold.0, vec![p[0], p[1]]);
    assert_eq!(shown.first.h_bold.0, vec![p[2], p[3]]);
    assert_eq!(shown.second.h_bold.0, vec![p[5], p[6]]);
    assert_eq!(shown.first.g, p[8]);
    assert_eq!(shown.second.g, p[9]);
    // The witness opens both statements, whatever the weight.
    assert!(shown.first.opened_by(&shown.witness, &s(2)));
    assert!(shown.second.opened_by(&shown.witness, &s(9)));
    // Another commitment is not opened.
    let other = vector_commitment_statement(p[8], &first_hs, vec![p[0], p[1]], p[10], p[11]);
    assert!(!other.opened_by(&shown.witness, &s(2)));
}

#[test]
fn weighted_inner_product_relation() {
    let p = points(40, 6);
    // P = <a, b>_y g + alpha h + a_0 G_0 + b_0 H_0 with a = [2], b = [3], y = 5, alpha = 4.
    let opened = p[0].mul(&s(2 * 3 * 5)).add(&p[1].mul(&s(4))).add(&p[2].mul(&s(2))).add(&p[3].mul(&s(3)));
    let statement = vector_commitment_statement(p[0], &vec![p[3]], vec![p[2]], p[1], opened);
    let witness = threshold_core::proving::WipWitness {
        a: threshold_core::vector::ScalarVector(vec![s(2)]),
        b: threshold_core::vector::ScalarVector(vec![s(3)]),
        alpha: s(4),
    };
    assert!(statement.opened_by(&witness, &s(5)));
    assert!(!statement.opened_by(&witness, &s(6)));
}

#[test]
fn prover_and_verifier_agree_on_what_is_proved() {
    let further = points(60, 12);
    let first_hs = further[..6].to_vec();
    let second_hs = further[6..].to_vec();
    let gs = (points(80, 1)[0], points(81, 1)[0]);

    // The prover binds the output of one product and finalizes under a blind of its own.
    let mut prover = circuit(true, None);
    let a = prover.add_secret_input(Some(s(3)));
    let b = prover.add_secret_input(Some(s(5)));
    let ((_, _, o), _) = prover.product(a, b);
    prover.equals_constant(o, s(15));
    let vc = prover.allocate_vector_commitment();
    let free = prover.allocate_vector_commitment();
    assert_eq!(prover.bind(vc, o, None), Ok(()));
    let finalized = prover.finalize_commitment(vc, Some(s(11)));
    let _ = free;
    let proving = prover
        .prove_with_vector_commitments(gs, &first_hs, &second_hs, &vec![s(100), s(200)], s(7))
        .ok()
        .unwrap();
    assert_eq!(proving.blinds, vec![s(11), s(200)]);
    assert_eq!(proving.vector_commitments[0], finalized);
    assert_eq!(proving.vector_commitments[1], points(1, 1)[0].mul(&s(200)));
    assert_eq!(proving.well_formed.len(), 3);
    assert_eq!(proving.total_blind, s(11 + 200 + 7));
    let others = &proving.well_formed[2];
    assert_eq!(others.witness.a.0, vec![s(3), s(5)]);
    assert_eq!(
        proving.expected_a,
        proving.vector_commitments[0].add(&proving.vector_commitments[1]).add(&others.commitment)
    );
    assert!(others.first.opened_by(&others.witness, &s(3)));
    // The sum of the commitments commits to the whole witness under the total blind.
    let all = points(0, 18);
    assert_eq!(
        proving.expected_a,
        all[1].mul(&s(218)).add(&all[2].mul(&s(3))).add(&all[10].mul(&s(5))).add(&all[6].mul(&s(15)))
    );

    // The verifier builds the same circuit around the commitments it was given.
    let given = proving.vector_commitments.clone();
    let mut verifier = circuit(false, Some(given.clone()));
    let a = verifier.add_secret_input(None);
    let b = verifier.add_secret_input(None);
    let ((_, _, o), _) = verifier.product(a, b);
    verifier.equals_constant(o, s(15));
    let vc = verifier.allocate_vector_commitment();
    let _ = verifier.allocate_vector_commitment();
    assert_eq!(verifier.bind(vc, o, None), Ok(()));
    assert_eq!(verifier.finalize_commitment(vc, None), given[0]);
    let verifying =
        verifier.verify_with_vector_commitments(gs, &first_hs, &second_hs, &proving.expected_a).unwrap();
    assert_eq!(verifying.statements.len(), 3);
    for (k, (first, second)) in verifying.statements.iter().enumerate() {
        assert_eq!(first.p, proving.well_formed[k].first.p);
        assert_eq!(second.p, proving.well_formed[k].second.p);
        assert_eq!(first.g_bold.0, proving.well_formed[k].first.g_bold.0);
        assert_eq!(first.h_bold.0, proving.well_formed[k].first.h_bold.0);
        assert_eq!(second.h_bold.0, proving.well_formed[k].second.h_bold.0);
    }
    assert!(verifying.statements[0].1.opened_by(&proving.well_formed[0].witness, &s(4)));
    assert_eq!(verifying.statement.c.0, proving.statement.c.0);
}

#[test]
fn plain_prove_and_verify() {
    let mut prover = circuit(true, None);
    let a = prover.add_secret_input(Some(s(3)));
    let ((l, _, _), _) = prover.product(a, a);
    prover.equals_constant(l, s(3));
    let (statement, witness) = prover.prove().ok().unwrap();
    assert_eq!(witness.al.0, vec![s(3)]);
    assert_eq!(statement.c.0, vec![s(1)]);

    let mut faulty = circuit(true, None);
    let a = faulty.add_secret_input(Some(s(3)));
    let ((l, _, _), _) = faulty.product(a, a);
    let mut wrong = Constraint::new("four");
    wrong.weight(l, s(1));
    wrong.rhs_offset(s(4));
    faulty.constrain(wrong);
    assert_eq!(faulty.prove().err().unwrap().label, "four");

    let mut verifier = circuit(false, Some(vec![]));
    let a = verifier.add_secret_input(None);
    let ((l, _, _), _) = verifier.product(a, a);
    verifier.equals_constant(l, s(3));
    let verified = verifier.verify().unwrap();
    assert_eq!(verified.c.0, statement.c.0);
    assert_eq!(verified.wl.row(0), statement.wl.row(0));
}
