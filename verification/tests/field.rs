use threshold_core::field::{FieldElement, MODULUS};
use threshold_core::point::{DecodeError, Point};
use threshold_core::scalar::Scalar;

fn f(x: u64) -> FieldElement {
    FieldElement::from_u64(x)
}

fn modulus_repr() -> [u8; 33] {
    let mut repr = [0u8; 33];
    repr.copy_from_slice(&MODULUS[..33]);
    repr
}

#[test]
fn field_arithmetic() {
    assert_eq!(f(2).add(&f(3)), f(5));
    assert_eq!(f(7).sub(&f(3)), f(4));
    assert_eq!(f(6).mul(&f(7)), f(42));
    assert_eq!(f(9).square(), f(81));
    assert_eq!(f(21).double(), f(42));
    assert_eq!(f(0), FieldElement::zero());
    assert_eq!(f(1), FieldElement::one());
    // Subtraction wraps around the modulus: 3 - 7 = -4.
    assert_eq!(f(3).sub(&f(7)), f(4).neg());
    assert_eq!(f(4).neg().add(&f(4)), f(0));
    assert_eq!(f(0).neg(), f(0));
    // -1 is the modulus less one.
    let mut minus_one = modulus_repr();
    minus_one[0] -= 1;
    assert_eq!(f(1).neg().to_repr(), minus_one);
    assert!(f(0).is_zero());
    assert!(!f(1).is_zero());
    assert!(f(7).is_odd());
    assert!(!f(8).is_odd());
    assert!(f(3).ct_eq(&f(3)));
    assert!(!f(3).ct_eq(&f(4)));
    assert_eq!(FieldElement::conditional_select(&f(1), &f(2), false), f(1));
    assert_eq!(FieldElement::conditional_select(&f(1), &f(2), true), f(2));
}

#[test]
fn powers_and_inverses() {
    assert_eq!(f(3).pow(&f(0)), f(1));
    assert_eq!(f(3).pow(&f(1)), f(3));
    assert_eq!(f(3).pow(&f(5)), f(243));
    assert_eq!(f(2).pow(&f(64)), f(1 << 32).square());
    assert_eq!(f(0).invert(), None);
    for x in [1u64, 2, 3, 1234567, u64::MAX] {
        assert_eq!(f(x).mul(&f(x).invert().unwrap()), f(1));
        assert_eq!(Scalar::from_u64(x).mul(&Scalar::from_u64(x).invert().unwrap()), Scalar::one());
    }
}

#[test]
fn square_roots() {
    for x in [0u64, 1, 2, 3, 99] {
        let square = f(x).square();
        let root = square.sqrt().unwrap();
        assert_eq!(root.square(), square);
        assert!(root == f(x) || root == f(x).neg());
    }
    // Exactly one of a non-zero element and its negation is a square.
    for x in [1u64, 2, 3, 5, 7] {
        assert!(f(x).sqrt().is_some() != f(x).neg().sqrt().is_some());
    }
}

#[test]
fn encodings_are_canonical() {
    assert_eq!(FieldElement::from_repr(&f(258).to_repr()), Some(f(258)));
    let mut expected = [0u8; 33];
    expected[0] = 2;
    expected[1] = 1;
    assert_eq!(f(258).to_repr(), expected);
    assert_eq!(FieldElement::from_repr(&modulus_repr()), None);
    let mut below = modulus_repr();
    below[0] -= 1;
    assert!(FieldElement::from_repr(&below).is_some());
    let mut wide = [0u8; 33];
    wide[32] = 1;
    assert_eq!(FieldElement::from_repr(&wide), None);
    // The modulus reduces to zero, and 2^256 to what the modulus lacks of it.
    assert_eq!(FieldElement::reduce(&MODULUS), f(0));
    let mut bytes = [0u8; 128];
    bytes[32] = 1;
    assert_eq!(FieldElement::from_wide(&bytes), f(189537));
    bytes[32] = 0;
    bytes[64] = 1;
    assert_eq!(FieldElement::from_wide(&bytes), f(189537).square());
}

#[test]
fn bits_are_least_significant_first() {
    let bits = f(0b1000_0101).to_le_bits();
    assert_eq!(bits.len(), 264);
    for (i, bit) in bits.iter().enumerate() {
        assert_eq!(*bit, i == 0 || i == 2 || i == 7);
    }
    let bits = Scalar::from_u64(1 << 40).to_le_bits();
    for (i, bit) in bits.iter().enumerate() {
        assert_eq!(*bit, i == 40);
    }
}

#[test]
fn decoding_rejects_what_is_not_a_point_of_the_subgroup() {
    assert_eq!(Point::from_bytes(&modulus_repr()), Err(DecodeError::InvalidEncoding));
    // The identity has one encoding: all zero.
    let mut signed_zero = [0u8; 33];
    signed_zero[32] = 0x80;
    assert_eq!(Point::from_bytes(&signed_zero), Err(DecodeError::InvalidEncoding));
    assert_eq!(Point::from_bytes(&[0u8; 33]), Ok(Point::identity()));
    // An x for which x^3 + 1 is not a square.
    let mut x = 1u64;
    while f(x).square().mul(&f(x)).add(&f(1)).sqrt().is_some() {
        x += 1;
    }
    assert_eq!(Point::from_bytes(&f(x).to_repr()), Err(DecodeError::InvalidPoint));
    // (2, 3) is a point of order six.
    assert_eq!(f(3).square(), f(2).square().mul(&f(2)).add(&f(1)));
    let six = Point::from_affine_unchecked(f(2), f(3));
    assert!(six.mul_by_cofactor().is_identity());
    assert!(!six.double().is_identity());
    assert_eq!(Point::from_bytes(&six.to_bytes()), Err(DecodeError::Torsion));
}

#[test]
fn encoding_round_trips() {
    let g = Point::generator();
    for k in [1u64, 2, 3, 1000] {
        let p = g.mul(&Scalar::from_u64(k));
        let bytes = p.to_bytes();
        let decoded = Point::from_bytes(&bytes).unwrap();
        assert_eq!(decoded, p);
        assert_eq!(decoded.to_bytes(), bytes);
        // The negation differs in the sign bit only.
        let mut flipped = bytes;
        flipped[32] ^= 0x80;
        assert_eq!(Point::from_bytes(&flipped).unwrap(), p.neg());
    }
}

#[test]
fn scalar_multiplication_distributes() {
    let g = Point::generator();
    let p = g.double().add(&g);
    for (s, t) in [(1u64, 1u64), (2, 3), (17, 4), (u64::MAX, 5)] {
        let (s, t) = (Scalar::from_u64(s), Scalar::from_u64(t));
        assert_eq!(p.mul(&s).add(&p.mul(&t)), p.mul(&s.add(&t)));
    }
    // Across the order: s + (-s) = 0.
    let s = Scalar::from_u64(12345);
    assert_eq!(p.mul(&s).add(&p.mul(&s.neg())), Point::identity());
    assert_eq!(p.mul(&Scalar::zero()), Point::identity());
    assert_eq!(p.mul(&Scalar::one()), p);
    assert_eq!(Point::conditional_select(&g, &p, true), p);
    assert_eq!(Point::conditional_select(&g, &p, false), g);
}
