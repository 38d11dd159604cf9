use threshold_core::compile::Opening;
use threshold_core::pair::{prove_all, verify_all, verify_pair};
use threshold_core::point::Point;
use threshold_core::proving::{well_formed, WellFormed, WipStatement};
use threshold_core::scalar::Scalar;
use threshold_core::vector::PointVector;
use threshold_core::wip::{absorb, WipProof};

fn number(x: u64) -> Scalar {
    Scalar::from_u64(x)
}

fn ladder(start: usize, count: usize) -> Vec<Point> {
    let g = Point::generator();
    let mut p = g;
    for _ in 0..start {
        p = p.add(&g);
    }
    let mut out = vec![];
    for _ in 0..count {
        out.push(p);
        p = p.add(&g);
    }
    out
}

fn strings(seed: usize, count: usize) -> Vec<[u8; 128]> {
    let mut out = vec![];
    for k in 0..count {
        let mut bytes = [0u8; 128];
        for (i, byte) in bytes.iter_mut().enumerate() {
            *byte = ((i * 11 + k * 17 + seed * 29 + 3) % 251) as u8;
        }
        out.push(bytes);
    }
    out
}

// What shows a commitment to one value well-formed.
fn shown(value: u64, blind: u64, at: usize) -> WellFormed {
    let p = ladder(at, 6);
    let openings = vec![Opening { value: Some(number(value)), generator: p[0] }];
    well_formed((p[1], p[2]), &vec![p[3]], &vec![p[4]], &openings, number(blind), p[5])
}

fn statements(shown: &WellFormed) -> (WipStatement, WipStatement) {
    let copy = |s: &WipStatement| WipStatement {
        g: s.g,
        h: s.h,
        g_bold: PointVector(s.g_bold.0.clone()),
        h_bold: PointVector(s.h_bold.0.clone()),
        p: s.p,
    };
    (copy(&shown.first), copy(&shown.second))
}

fn dummy() -> WipProof {
    WipProof {
        l: vec![],
        r: vec![],
        a: Point::generator(),
        b: Point::generator(),
        r_answer: number(1),
        s_answer: number(2),
        delta_answer: number(3),
    }
}

#[test]
fn pair_of_proofs_is_accepted() {
    let shown = shown(5, 8, 3);
    let mut proving = number(77);
    let proofs = shown.prove(&mut proving, &strings(0, 4), &strings(1, 4)).unwrap();
    let (first, second) = statements(&shown);
    let mut verifying = number(77);
    assert!(verify_pair(&first, &second, &mut verifying, &proofs));
    assert_eq!(proving, verifying);
    // The transcript took the commitment in twice, once for each proof.
    let mut expected = number(77);
    absorb(&mut expected, &shown.commitment, &first.g);
    absorb(&mut expected, &shown.commitment, &second.g);
    assert_eq!(proving, expected);
    assert!(proving != number(77));
}

#[test]
fn pair_of_proofs_over_another_transcript_is_rejected() {
    let shown = shown(5, 8, 3);
    let mut proving = number(77);
    let proofs = shown.prove(&mut proving, &strings(0, 4), &strings(1, 4)).unwrap();
    let (first, second) = statements(&shown);
    let mut verifying = number(78);
    assert!(!verify_pair(&first, &second, &mut verifying, &proofs));
}

#[test]
fn swapped_pair_is_rejected() {
    let shown = shown(5, 8, 3);
    let mut proving = number(77);
    let (one, two) = shown.prove(&mut proving, &strings(0, 4), &strings(1, 4)).unwrap();
    let (first, second) = statements(&shown);
    let mut verifying = number(77);
    assert!(!verify_pair(&first, &second, &mut verifying, &(two, one)));
}

#[test]
fn no_pair_without_entropy_for_the_second_proof() {
    let shown = shown(5, 8, 3);
    let mut proving = number(77);
    assert!(shown.prove(&mut proving, &strings(0, 4), &strings(1, 3)).is_none());
}

#[test]
fn proofs_for_a_list_chain_the_transcript() {
    let list = vec![shown(5, 8, 3), shown(6, 9, 10)];
    let entropy = vec![(strings(0, 4), strings(1, 4)), (strings(2, 4), strings(3, 4))];
    let mut transcript = number(123);
    let proofs = prove_all(&list, &mut transcript, &entropy).unwrap();
    assert_eq!(proofs.len(), 2);
    let mut expected = number(123);
    absorb(&mut expected, &list[0].commitment, &list[0].first.g);
    absorb(&mut expected, &list[0].commitment, &list[0].second.g);
    absorb(&mut expected, &list[1].commitment, &list[1].first.g);
    absorb(&mut expected, &list[1].commitment, &list[1].second.g);
    assert_eq!(transcript, expected);
}

#[test]
fn proofs_for_a_list_are_accepted() {
    let list = vec![shown(5, 8, 3)];
    let entropy = vec![(strings(0, 4), strings(1, 4))];
    let mut proving = number(123);
    let proofs = prove_all(&list, &mut proving, &entropy).unwrap();
    let all = vec![statements(&list[0])];
    let mut verifying = number(123);
    assert!(verify_all(&all, &mut verifying, &proofs));
    assert_eq!(proving, verifying);
}

#[test]
fn list_of_another_length_is_refused_with_the_transcript_kept() {
    let list = vec![shown(5, 8, 3)];
    let mut transcript = number(9);
    assert!(prove_all(&list, &mut transcript, &vec![]).is_none());
    assert_eq!(transcript, number(9));
    let all = vec![statements(&list[0])];
    assert!(!verify_all(&all, &mut transcript, &vec![]));
    assert_eq!(transcript, number(9));
    assert!(!verify_all(&vec![], &mut transcript, &vec![(dummy(), dummy())]));
    assert_eq!(transcript, number(9));
    // Nothing to show is shown.
    assert!(verify_all(&vec![], &mut transcript, &vec![]));
    assert_eq!(prove_all(&vec![], &mut transcript, &vec![]).map(|p| p.len()), Some(0));
}

#[test]
fn rejected_list_still_advances_the_transcript() {
    let list = vec![shown(5, 8, 3), shown(6, 9, 10)];
    let all = vec![statements(&list[0]), statements(&list[1])];
    let mut transcript = number(4);
    assert!(!verify_all(&all, &mut transcript, &vec![(dummy(), dummy()), (dummy(), dummy())]));
    let mut expected = number(4);
    absorb(&mut expected, &all[0].0.p, &all[0].0.g);
    absorb(&mut expected, &all[0].1.p, &all[0].1.g);
    absorb(&mut expected, &all[1].0.p, &all[1].0.g);
    absorb(&mut expected, &all[1].1.p, &all[1].1.g);
    assert_eq!(transcript, expected);
}
