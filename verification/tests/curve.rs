use threshold_core::field::FieldElement;
use threshold_core::point::{DecodeError, Point, BASE_X, BASE_Y};
use threshold_core::scalar::Scalar;

fn base() -> Point {
    Point::from_affine_unchecked(FieldElement::reduce(&BASE_X), FieldElement::reduce(&BASE_Y))
}

#[test]
fn serialize() {
    assert_eq!(Scalar::from_repr(&Scalar::one().to_repr()).unwrap(), Scalar::one());
    assert_eq!(Point::from_bytes(&Point::generator().to_bytes()).unwrap(), Point::generator());
}

#[test]
fn eq() {
    assert_eq!(Point::identity(), Point::identity());
    assert_eq!(Point::generator(), Point::generator());
    assert!(Point::generator() != Point::identity());
}

#[test]
fn inverse() {
    assert_eq!(Scalar::one().invert().unwrap(), Scalar::one());
}

#[test]
fn add() {
    let two = Point::generator().add(&Point::generator());
    assert_eq!(Point::generator().double(), two);
    assert_eq!(two.sub(&Point::generator()), Point::generator());
    assert_eq!(Point::generator().sub(&Point::generator()), Point::identity());
    assert_eq!(Point::sum(&vec![Point::generator(), Point::generator()]), two);
}

#[test]
fn mul() {
    let two = Point::generator().add(&Point::generator());
    assert_eq!(Point::generator().mul(&Scalar::from_u64(2)), two);
    assert_eq!(Point::generator().mul(&Scalar::from_u64(3)), two.add(&Point::generator()));

    assert_eq!(
        Point::generator().mul(&Scalar::from_u64(3)).add(&Point::generator().mul(&Scalar::from_u64(2))),
        Point::generator()
            .add(&Point::generator())
            .add(&Point::generator())
            .add(&Point::generator())
            .add(&Point::generator())
    );

    assert_eq!(
        Point::generator().mul(&Scalar::one().neg()).add(&Point::generator()),
        Point::identity()
    );
    assert_eq!(Point::generator().mul(&Scalar::one().neg()), Point::generator().neg());
    assert_eq!(
        Point::generator().mul(&Scalar::one().neg()).add(&Point::generator().double()),
        Point::generator()
    );
}

#[test]
fn infinity() {
    assert_eq!(Point::from_bytes(&Point::identity().to_bytes()).unwrap(), Point::identity());
    assert_eq!(Point::identity().add(&Point::identity()), Point::identity());
    assert_eq!(Point::identity().add(&Point::generator()), Point::generator());
    assert_eq!(Point::generator().add(&Point::identity()), Point::generator());
}

#[test]
fn field() {
    let zero = Point::generator().mul(&Scalar::one().neg()).add(&Point::generator());
    assert_eq!(zero.to_bytes(), [0u8; 33]);
    Point::from_bytes(&zero.to_bytes()).unwrap();
    assert_eq!(zero, Point::identity());
}

#[test]
fn torsion() {
    assert!(!base().mul_by_order().is_identity());
    assert!(Point::generator().mul_by_order().is_identity());
    assert_eq!(base().mul_by_cofactor(), Point::generator());
}

#[test]
fn generator_comes_from_the_hashed_coordinate() {
    // The coordinate holds 33 bytes, the first 0x04 and the last 0x52.
    assert_eq!(BASE_X[32], 0x04);
    assert_eq!(BASE_X[0], 0x52);
    assert!(BASE_X[33..].iter().all(|b| *b == 0));
    // The other coordinate is the root that the field gives.
    let x = FieldElement::reduce(&BASE_X);
    let root = x.square().mul(&x).add(&FieldElement::one()).sqrt().unwrap();
    assert_eq!(root, FieldElement::reduce(&BASE_Y));
    // The generator's encoding: its x-coordinate, then the parity of y.
    let encoded = Point::generator().to_bytes();
    assert_eq!(encoded[31], 0x04);
    assert_eq!(encoded[30], 0xf4);
    assert_eq!(encoded[29], 0x74);
    assert_eq!(encoded[28], 0x6c);
}

#[test]
fn base_point_is_on_the_curve() {
    let x = FieldElement::reduce(&BASE_X);
    let y = FieldElement::reduce(&BASE_Y);
    assert_eq!(y.square(), x.square().mul(&x).add(&FieldElement::one()));
    assert_eq!(Point::from_bytes(&base().to_bytes()), Err(DecodeError::Torsion));
}

#[test]
fn uniform_bytes_that_hold_a_coordinate_give_its_point() {
    let encoded = Point::generator().to_bytes();
    let mut wide = [0u8; 128];
    wide[..32].copy_from_slice(&encoded[..32]);
    let sign = encoded[32] & 128 != 0;
    assert_eq!(Point::from_uniform(&wide, sign), Ok(Point::generator()));
    assert_eq!(Point::from_uniform(&wide, !sign), Ok(Point::generator().neg()));
    // The coordinate of a point outside the subgroup is refused.
    let outside = base().to_bytes();
    let mut wide = [0u8; 128];
    wide[..32].copy_from_slice(&outside[..32]);
    assert_eq!(Point::from_uniform(&wide, outside[32] & 128 != 0), Err(DecodeError::Torsion));
}
