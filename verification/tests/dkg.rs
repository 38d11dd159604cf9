use threshold_core::dkg::{
    coefficients, commit, evaluate, group_key, lagrange, prove_knowledge, secret_share, share_for,
    verification_share, verify_knowledge, verify_share,
};
use threshold_core::point::Point;
use threshold_core::scalar::Scalar;

fn s(x: u64) -> Scalar {
    Scalar::from_u64(x)
}

fn entropy(seed: u8, count: usize) -> Vec<[u8; 128]> {
    (0..count)
        .map(|k| {
            let mut bytes = [0u8; 128];
            for (i, b) in bytes.iter_mut().enumerate() {
                *b = seed.wrapping_mul(31).wrapping_add((i as u8).wrapping_mul(7)).wrapping_add(k as u8);
            }
            bytes
        })
        .collect()
}

#[test]
fn polynomial_values() {
    // 3 + 5 x + 7 x^2
    let f = vec![s(3), s(5), s(7)];
    assert_eq!(evaluate(&f, &s(0)), s(3));
    assert_eq!(evaluate(&f, &s(1)), s(15));
    assert_eq!(evaluate(&f, &s(2)), s(41));
    assert_eq!(share_for(&f, 10), s(753));
    assert_eq!(evaluate(&vec![], &s(9)), s(0));
    assert_eq!(coefficients(&vec![[0u8; 128]]), vec![s(0)]);
}

#[test]
fn interpolation_weights() {
    // Over participants 1 and 3: the weight of 1 is 3 / (3 - 1), that of 3 is 1 / (1 - 3).
    let two_inv = s(2).invert().unwrap();
    assert_eq!(lagrange(1, &vec![1, 3]), Some(s(3).mul(&two_inv)));
    assert_eq!(lagrange(3, &vec![1, 3]), Some(two_inv.neg()));
    assert_eq!(lagrange(2, &vec![2]), Some(s(1)));
    // A participant of the list other than the one asked for, at the same index modulo the
    // order, cannot occur with 16-bit indices: the weight always exists.
    assert!(lagrange(1, &vec![1, 1, 2]).is_some());
    // A line through (1, 8) and (3, 18) meets zero at 3.
    let f = vec![s(3), s(5)];
    let at_zero = lagrange(1, &vec![1, 3])
        .unwrap()
        .mul(&share_for(&f, 1))
        .add(&lagrange(3, &vec![1, 3]).unwrap().mul(&share_for(&f, 3)));
    assert_eq!(at_zero, s(3));
}

const N: u16 = 3;
const T: usize = 2;

// The first round: every participant samples a polynomial of degree t - 1.
fn polynomials() -> Vec<Vec<Scalar>> {
    (1..=N).map(|i| coefficients(&entropy(i as u8, T))).collect()
}

// The second round: the secret share of every participant.
fn secret_shares(polynomials: &[Vec<Scalar>]) -> Vec<Scalar> {
    (1..=N)
        .map(|j| secret_share(&polynomials.iter().map(|f| share_for(f, j)).collect()))
        .collect()
}

#[test]
fn dkg_commitments_carry_a_proof_of_knowledge() {
    let f = &polynomials()[0];
    let commitments = commit(f);
    assert_eq!(commitments.len(), T);
    assert_eq!(commitments[0], Point::generator().mul(&f[0]));
    let context = b"Key Gen. Session: 0, Index: 0, Attempt: 0".to_vec();
    let proof = prove_knowledge(&f[0], &s(1000), &context);
    assert!(verify_knowledge(&commitments[0], &context, &proof));
    assert!(!verify_knowledge(&commitments[1], &context, &proof));
    assert!(!verify_knowledge(&commitments[0], &b"another attempt".to_vec(), &proof));
}

#[test]
fn dkg_shares_are_checked_against_commitments() {
    let polynomials = polynomials();
    let commitments: Vec<Vec<Point>> = polynomials.iter().map(commit).collect();
    for (i, j) in [(0usize, 1u16), (0, 3), (1, 2), (2, 1)] {
        assert!(verify_share(&commitments[i], j, &share_for(&polynomials[i], j)));
    }
    assert!(!verify_share(&commitments[0], 2, &share_for(&polynomials[0], 2).add(&s(1))));
    assert!(!verify_share(&commitments[1], 2, &share_for(&polynomials[0], 2)));
}

#[test]
fn dkg_with_three_participants_and_threshold_two() {
    let polynomials = polynomials();
    let commitments: Vec<Vec<Point>> = polynomials.iter().map(commit).collect();
    let secrets = secret_shares(&polynomials);

    // All three derive the same group key from the same commitments, and a secret share
    // matches its verification share.
    let key = group_key(&commitments);
    assert!(!key.is_identity());
    let g = Point::generator();
    assert_eq!(g.mul(&secrets[1]), verification_share(&commitments, 2));

    // Any two participants hold the key between them: their shares interpolate to the
    // secret of the group key. The third's absence does not matter.
    let mut reconstructed = vec![];
    for pair in [vec![1u16, 2], vec![1, 3], vec![2, 3]] {
        let mut secret = s(0);
        for j in &pair {
            secret = secret.add(&lagrange(*j, &pair).unwrap().mul(&secrets[*j as usize - 1]));
        }
        reconstructed.push(secret);
    }
    assert_eq!(reconstructed[0], reconstructed[1]);
    assert_eq!(reconstructed[0], reconstructed[2]);
    assert_eq!(g.mul(&reconstructed[0]), key);
    // One participant alone does not hold it.
    assert!(secrets[0] != reconstructed[0]);

    // A signature made with what two participants hold verifies under the group key.
    let message = b"a message to sign".to_vec();
    let signature = prove_knowledge(&reconstructed[2], &s(77), &message);
    assert!(verify_knowledge(&key, &message, &signature));
}
