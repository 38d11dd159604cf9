use threshold_core::point::Point;
use threshold_core::proving::{WipStatement, WipWitness};
use threshold_core::scalar::Scalar;
use threshold_core::vector::{PointVector, ScalarVector};
use threshold_core::wip::{absorb, WipProof};

fn scalar(x: u64) -> Scalar {
    Scalar::from_u64(x)
}

fn multiples(start: usize, count: usize) -> Vec<Point> {
    let g = Point::generator();
    let mut p = g;
    for _ in 0..start {
        p = p.add(&g);
    }
    let mut out = vec![];
    for _ in 0..count {
        out.push(p);
        p = p.add(&g);
    }
    out
}

fn entropy(count: usize) -> Vec<[u8; 128]> {
    let mut out = vec![];
    for k in 0..count {
        let mut bytes = [0u8; 128];
        for (i, byte) in bytes.iter_mut().enumerate() {
            *byte = ((i * 7 + k * 13 + 1) % 251) as u8;
        }
        out.push(bytes);
    }
    out
}

// The statement that the witness a = [3, 5], b = [7, 11], alpha = 13
// opens under the weight 2: <a, b>_y = 3 * 7 * 2 + 5 * 11 * 4 = 262.
fn statement_of_two() -> (WipStatement, WipWitness, Scalar) {
    let p = multiples(2, 6);
    let commitment = p[0]
        .mul(&scalar(262))
        .add(&p[1].mul(&scalar(13)))
        .add(&p[2].mul(&scalar(3)))
        .add(&p[3].mul(&scalar(5)))
        .add(&p[4].mul(&scalar(7)))
        .add(&p[5].mul(&scalar(11)));
    let statement = WipStatement {
        g: p[0],
        h: p[1],
        g_bold: PointVector(vec![p[2], p[3]]),
        h_bold: PointVector(vec![p[4], p[5]]),
        p: commitment,
    };
    let witness = WipWitness {
        a: ScalarVector(vec![scalar(3), scalar(5)]),
        b: ScalarVector(vec![scalar(7), scalar(11)]),
        alpha: scalar(13),
    };
    (statement, witness, scalar(2))
}

fn statement_of_one() -> (WipStatement, WipWitness, Scalar) {
    let p = multiples(9, 4);
    // <a, b>_y = 4 * 6 * 3 = 72.
    let commitment =
        p[0].mul(&scalar(72)).add(&p[1].mul(&scalar(9))).add(&p[2].mul(&scalar(4))).add(&p[3].mul(&scalar(6)));
    let statement = WipStatement {
        g: p[0],
        h: p[1],
        g_bold: PointVector(vec![p[2]]),
        h_bold: PointVector(vec![p[3]]),
        p: commitment,
    };
    let witness =
        WipWitness { a: ScalarVector(vec![scalar(4)]), b: ScalarVector(vec![scalar(6)]), alpha: scalar(9) };
    (statement, witness, scalar(3))
}

#[test]
fn proof_of_length_one_is_accepted() {
    let (statement, witness, y) = statement_of_one();
    assert!(statement.opened_by(&witness, &y));
    let proof = statement.prove(&witness, &y, &entropy(4)).unwrap();
    assert!(proof.l.is_empty());
    assert!(proof.r.is_empty());
    assert!(statement.verify(&proof, &y));
}

#[test]
fn last_step_answers_the_challenge() {
    let (statement, witness, y) = statement_of_one();
    let blinds = entropy(4);
    let proof = statement.prove(&witness, &y, &blinds).unwrap();
    let mut transcript = y;
    absorb(&mut transcript, &statement.p, &statement.g);
    let e = absorb(&mut transcript, &proof.a, &proof.b);
    let r = Scalar::from_wide(&blinds[0]);
    let s = Scalar::from_wide(&blinds[1]);
    let delta = Scalar::from_wide(&blinds[2]);
    let eta = Scalar::from_wide(&blinds[3]);
    assert_eq!(proof.r_answer, r.add(&scalar(4).mul(&e)));
    assert_eq!(proof.s_answer, s.add(&scalar(6).mul(&e)));
    assert_eq!(proof.delta_answer, eta.add(&delta.mul(&e)).add(&scalar(9).mul(&e).mul(&e)));
    assert_eq!(proof.b, statement.g.mul(&r.mul(&y).mul(&s)).add(&statement.h.mul(&eta)));
}

#[test]
fn proof_of_length_one_under_another_weight_is_rejected() {
    let (statement, witness, y) = statement_of_one();
    let proof = statement.prove(&witness, &y, &entropy(4)).unwrap();
    assert!(!statement.verify(&proof, &scalar(4)));
}

#[test]
fn tampered_answer_is_rejected() {
    let (statement, witness, y) = statement_of_one();
    let proof = statement.prove(&witness, &y, &entropy(4)).unwrap();
    let WipProof { l, r, a, b, r_answer, s_answer, delta_answer } = proof;
    let forged = WipProof { l, r, a, b, r_answer: r_answer.add(&scalar(1)), s_answer, delta_answer };
    assert!(!statement.verify(&forged, &y));
}

#[test]
fn proof_for_a_witness_that_does_not_open_is_rejected() {
    let (statement, witness, y) = statement_of_one();
    let wrong = WipWitness { a: witness.a, b: witness.b, alpha: scalar(10) };
    assert!(!statement.opened_by(&wrong, &y));
    let proof = statement.prove(&wrong, &y, &entropy(4)).unwrap();
    assert!(!statement.verify(&proof, &y));
}

#[test]
fn proof_of_length_two_is_accepted() {
    let (statement, witness, y) = statement_of_two();
    let proof = statement.prove(&witness, &y, &entropy(6)).unwrap();
    assert_eq!(proof.l.len(), 1);
    assert_eq!(proof.r.len(), 1);
    assert!(statement.verify(&proof, &y));
}

#[test]
fn tampered_cross_term_is_rejected() {
    let (statement, witness, y) = statement_of_two();
    let proof = statement.prove(&witness, &y, &entropy(6)).unwrap();
    let WipProof { l, r, a, b, r_answer, s_answer, delta_answer } = proof;
    let forged = WipProof { l: vec![l[0].double()], r, a, b, r_answer, s_answer, delta_answer };
    assert!(!statement.verify(&forged, &y));
}

#[test]
fn proof_with_a_missing_round_is_rejected() {
    let (statement, witness, y) = statement_of_one();
    let proof = statement.prove(&witness, &y, &entropy(4)).unwrap();
    let WipProof { l: _, r, a, b, r_answer, s_answer, delta_answer } = proof;
    let padded = WipProof { l: vec![Point::generator()], r, a, b, r_answer, s_answer, delta_answer };
    assert!(!statement.verify(&padded, &y));
}

#[test]
fn no_proof_without_enough_entropy() {
    let (statement, witness, y) = statement_of_one();
    assert!(statement.prove(&witness, &y, &entropy(3)).is_none());
}

#[test]
fn no_proof_for_a_length_that_is_no_power_of_two() {
    let p = multiples(1, 8);
    let statement = WipStatement {
        g: p[0],
        h: p[1],
        g_bold: PointVector(vec![p[2], p[3], p[4]]),
        h_bold: PointVector(vec![p[5], p[6], p[7]]),
        p: p[0],
    };
    let witness = WipWitness {
        a: ScalarVector(vec![scalar(1), scalar(2), scalar(3)]),
        b: ScalarVector(vec![scalar(1), scalar(2), scalar(3)]),
        alpha: scalar(1),
    };
    assert!(statement.prove(&witness, &scalar(2), &entropy(12)).is_none());
    let empty = WipStatement {
        g: p[0],
        h: p[1],
        g_bold: PointVector(vec![]),
        h_bold: PointVector(vec![]),
        p: p[0],
    };
    let nothing = WipWitness { a: ScalarVector(vec![]), b: ScalarVector(vec![]), alpha: scalar(1) };
    assert!(empty.prove(&nothing, &scalar(2), &entropy(12)).is_none());
}

#[test]
fn no_proof_under_the_weight_zero() {
    let (statement, witness, _) = statement_of_two();
    assert!(statement.prove(&witness, &scalar(0), &entropy(6)).is_none());
}
