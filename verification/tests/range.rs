use threshold_core::point::Point;
use threshold_core::range::{
    alpha_rho, bit_decompose, challenge_products, generator, generators, hash_cache, hash_commitments,
    hash_to_scalar, lr_statements, two_n, vector_exponent, Bulletproof25519, BulletproofsCurve, Commitment,
    LOG_N, MAX_M, MN, N,
};
use threshold_core::scalar::Scalar;
use threshold_core::vector::{PointVector, ScalarMatrix, ScalarVector};

fn s(x: u64) -> Scalar {
    Scalar::from_u64(x)
}

fn points(count: usize) -> Vec<Point> {
    let g = Point::generator();
    let mut p = g;
    let mut out = vec![];
    for _ in 0..count {
        out.push(p);
        p = p.add(&g);
    }
    out
}

#[test]
fn shape_of_a_proof() {
    assert_eq!((MAX_M, LOG_N, N), (16, 6, 64));
    assert_eq!(MN(0), (6, 1, 64));
    assert_eq!(MN(1), (6, 1, 64));
    assert_eq!(MN(2), (7, 2, 128));
    assert_eq!(MN(3), (8, 4, 256));
    assert_eq!(MN(4), (8, 4, 256));
    assert_eq!(MN(9), (10, 16, 1024));
    assert_eq!(MN(16), (10, 16, 1024));
    assert_eq!(MN(17), (11, 32, 2048));
    assert_eq!(MN(1000), (11, 32, 2048));
}

#[test]
fn hash_to_scalar_reduces_the_digest() {
    let empty = [
        49, 4, 205, 19, 247, 41, 31, 137, 49, 31, 32, 203, 43, 214, 14, 125, 105, 206, 217, 37, 215,
        174, 80, 236, 164, 29, 156, 81, 13, 215, 236, 8, 0,
    ];
    let abc = [
        112, 145, 209, 132, 174, 190, 189, 86, 7, 14, 204, 45, 179, 253, 92, 47, 136, 4, 89, 247, 189,
        95, 34, 249, 202, 32, 126, 249, 188, 71, 35, 0, 0,
    ];
    assert_eq!(hash_to_scalar(&vec![]).to_repr(), empty);
    assert_eq!(hash_to_scalar(&b"abc".to_vec()).to_repr(), abc);
}

#[test]
fn hash_cache_chains() {
    let expected = [
        249, 195, 88, 177, 207, 0, 3, 79, 41, 94, 254, 97, 31, 137, 147, 238, 94, 5, 63, 54, 186, 143,
        182, 184, 197, 224, 70, 6, 78, 60, 31, 5, 0,
    ];
    let mut cache = s(5);
    let r = hash_cache(&mut cache, &vec![[1u8; 33]]);
    assert_eq!(r, cache);
    assert_eq!(cache.to_repr(), expected);
}

#[test]
fn hash_commitments_hashes_the_encodings() {
    let p = points(2);
    let mut bytes = vec![];
    bytes.extend_from_slice(&p[0].to_bytes());
    bytes.extend_from_slice(&p[1].to_bytes());
    assert_eq!(hash_commitments(&p), hash_to_scalar(&bytes));
}

#[test]
fn derived_generator_is_in_the_subgroup() {
    let g = generator(&b"Bulletproofs G".to_vec(), 0).unwrap();
    assert!(!g.is_identity());
    assert!(g.mul_by_order().is_identity());
    assert!(g != Point::generator());
}

#[test]
fn bits_of_amounts() {
    let (al, ar) = bit_decompose(&vec![Commitment::new(s(1), 5), Commitment::new(s(2), u64::MAX), Commitment::zero()]);
    assert_eq!(al.len(), 4 * 64);
    assert_eq!(ar.len(), 4 * 64);
    for i in 0..64 {
        assert_eq!(al.0[i], s(if i == 0 || i == 2 { 1 } else { 0 }));
        assert_eq!(al.0[64 + i], s(1));
        assert_eq!(al.0[128 + i], s(0));
        assert_eq!(al.0[192 + i], s(0));
    }
    for i in 0..256 {
        assert_eq!(ar.0[i], al.0[i].sub(&s(1)));
    }
}

#[test]
fn amount_commitment() {
    let p = points(2);
    let c = Commitment::new(s(7), 42);
    assert_eq!(c.calculate(&p[0], &p[1]), p[0].mul(&s(7)).add(&p[1].mul(&s(42))));
}

#[test]
fn products_of_challenges() {
    let w = vec![s(2), s(3), s(5)];
    let winv = vec![s(7), s(11), s(13)];
    let products = challenge_products(&w, &winv);
    assert_eq!(products.len(), 8);
    // Position k reads its bits from the top: bit 2 picks from round 0, bit 0 from round 2.
    for k in 0..8u64 {
        let pick = |round: usize, bit: u64| if (k >> bit) & 1 == 1 { w[round] } else { winv[round] };
        assert_eq!(products[k as usize], pick(0, 2).mul(&pick(1, 1)).mul(&pick(2, 0)));
    }
    assert_eq!(challenge_products(&vec![s(2)], &vec![s(9)]), vec![s(9), s(2)]);
}

#[test]
fn statements_of_a_round() {
    let p = points(3);
    let a = ScalarVector(vec![s(1), s(2)]);
    let b = ScalarVector(vec![s(3)]);
    let r = lr_statements(&a, &p[..2].to_vec(), &b, &p[2..].to_vec(), s(9), p[0]);
    assert_eq!(r, vec![(s(1), p[0]), (s(2), p[1]), (s(3), p[2]), (s(9), p[0])]);
}

#[test]
fn vector_commitments_of_two_vectors() {
    let p = points(5);
    let g = PointVector(p[..3].to_vec());
    let h = PointVector(p[3..].to_vec());
    let a = ScalarVector(vec![s(2), s(3)]);
    let b = ScalarVector(vec![s(4), s(5)]);
    let expected = p[0].mul(&s(2)).add(&p[1].mul(&s(3))).add(&p[3].mul(&s(4)).add(&p[4].mul(&s(5))));
    assert_eq!(vector_exponent(&a, &b, &g, &h), expected);
    let (blind, commitment) = alpha_rho(&[0u8; 128], &a, &b, &g, &h, &p[2]);
    assert_eq!(blind, s(0));
    assert_eq!(commitment, expected);
    let mut entropy = [0u8; 128];
    entropy[0] = 6;
    let (blind, commitment) = alpha_rho(&entropy, &a, &b, &g, &h, &p[2]);
    assert_eq!(blind, s(6));
    assert_eq!(commitment, expected.add(&p[2].mul(&s(6))));
}

#[test]
fn scalar_vectors() {
    let a = ScalarVector(vec![s(1), s(2), s(3)]);
    let b = ScalarVector(vec![s(4), s(5), s(6)]);
    assert_eq!(a.add(&b).0, vec![s(5), s(7), s(9)]);
    assert_eq!(b.sub(&a).0, vec![s(3), s(3), s(3)]);
    assert_eq!(a.mul(&b).0, vec![s(4), s(10), s(18)]);
    assert_eq!(a.scale(&s(3)).0, vec![s(3), s(6), s(9)]);
    assert_eq!(a.sum(), s(6));
    assert_eq!(a.inner_product(&b), s(32));
    // 1*4*2 + 2*5*4 + 3*6*8
    assert_eq!(a.weighted_inner_product(&b, &s(2)), s(192));
    assert_eq!(ScalarVector::powers(&s(3), 4).0, vec![s(1), s(3), s(9), s(27)]);
    assert_eq!(ScalarVector::new(2).0, vec![s(0), s(0)]);
    assert_eq!(two_n().0[63], s(1 << 63));
    assert_eq!(two_n().len(), 64);
}

#[test]
fn sparse_matrix_times_vector() {
    let mut m = ScalarMatrix::new(3);
    m.push(vec![(0, s(2)), (2, s(3))]);
    m.push(vec![]);
    m.push(vec![(1, s(0)), (1, s(5))]);
    let v = ScalarVector(vec![s(10), s(20), s(30)]);
    assert_eq!(m.mul_vec(&v).0, vec![s(110), s(0), s(100)]);
    assert_eq!(m.length(), 3);
    assert_eq!(m.width(), 3);
}

#[test]
fn multiexp_is_the_sum_of_multiples() {
    let p = points(2);
    let v = PointVector(p.clone());
    assert_eq!(v.len(), 2);
    assert_eq!(v.multiexp(&ScalarVector(vec![s(2), s(3)])), p[0].mul(&s(2)).add(&p[1].mul(&s(3))));
}

#[test]
fn amount_commitment_under_the_curve_generators() {
    let h = Bulletproof25519::alt_generator().unwrap();
    assert!(!h.is_identity());
    assert!(h != Point::generator());
    let c = Commitment::new(s(7), 42);
    assert_eq!(c.calculate_on::<Bulletproof25519>(), Some(Point::generator().mul(&s(7)).add(&h.mul(&s(42)))));
}

#[test]
fn first_generators_of_each_kind() {
    let (g, h) = generators(1).unwrap();
    assert_eq!(g.0.len(), 1);
    assert_eq!(h.0.len(), 1);
    assert_eq!(
        g.0[0].to_bytes(),
        [
            128, 228, 27, 211, 47, 131, 217, 16, 78, 228, 141, 62, 154, 158, 146, 207, 75, 114, 68, 217, 77,
            115, 121, 121, 253, 55, 194, 14, 63, 50, 35, 235, 0
        ]
    );
    assert_eq!(
        h.0[0].to_bytes(),
        [
            228, 72, 77, 66, 131, 75, 9, 233, 6, 84, 153, 224, 165, 251, 217, 188, 193, 205, 71, 29, 133, 16,
            168, 123, 156, 155, 179, 247, 130, 125, 106, 198, 0
        ]
    );
}

#[test]
fn no_generators_for_the_length_zero() {
    let (g, h) = generators(0).unwrap();
    assert!(g.0.is_empty());
    assert!(h.0.is_empty());
}
