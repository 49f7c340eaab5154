use ark_bls12_381::{Fq, Fr, G1Affine};
use ark_ec::AffineCurve;
use ark_ff::{FpParameters, PrimeField, Zero};
use poly_commitment::point::Point;
use poly_commitment::scalar::Scalar;

const FR_MODULUS: [u64; 4] = [
    0xffffffff00000001,
    0x53bda402fffe5bfe,
    0x3339d80809a1d805,
    0x73eda753299d7d48,
];

const FQ_MODULUS: [u64; 6] = [
    0xb9feffffffffaaab,
    0x1eabfffeb153ffff,
    0x6730d2a0f6b0f624,
    0x64774b84f38512bf,
    0x4b1ba7b6434bacd7,
    0x1a0111ea397fe69a,
];

#[test]
fn scalar_limbs_agree_with_the_field_order() {
    assert_eq!(<Fr as PrimeField>::Params::MODULUS.0, FR_MODULUS);
    assert_eq!(<Fq as PrimeField>::Params::MODULUS.0, FQ_MODULUS);
}

#[test]
fn scalar_from_limbs_accepts_reduced_values_only() {
    assert!(Scalar::from_limbs(FR_MODULUS).is_none());
    let mut below = FR_MODULUS;
    below[0] -= 1;
    assert_eq!(Scalar::from_limbs(below).unwrap().limbs(), below);
    let mut above = FR_MODULUS;
    above[0] += 1;
    assert!(Scalar::from_limbs(above).is_none());
    let mut high_limb = [0u64; 4];
    high_limb[3] = FR_MODULUS[3] + 1;
    assert!(Scalar::from_limbs(high_limb).is_none());
    let mut low_limbs = [u64::MAX; 4];
    low_limbs[3] = FR_MODULUS[3] - 1;
    assert!(Scalar::from_limbs(low_limbs).is_some());
    assert!(Scalar::from_limbs([u64::MAX; 4]).is_none());
}

#[test]
fn small_scalars_have_one_limb() {
    assert_eq!(Scalar::from_u64(7).limbs(), [7, 0, 0, 0]);
    assert_eq!(Scalar::zero().limbs(), [0, 0, 0, 0]);
    assert_eq!(Scalar::one().limbs(), [1, 0, 0, 0]);
    assert_eq!(Scalar::from_u64(0), Scalar::zero());
    assert_eq!(Scalar::from_u64(1), Scalar::one());
    assert_ne!(Scalar::from_u64(2), Scalar::one());
    assert!(Scalar::zero().is_zero());
    assert!(!Scalar::one().is_zero());
    assert!(!Scalar::from_limbs([0, 0, 0, 1]).unwrap().is_zero());
    assert_ne!(Scalar::from_limbs([0, 1, 0, 0]).unwrap(), Scalar::zero());
}

#[test]
fn point_from_limbs_accepts_canonical_coordinates_only() {
    let g = G1Affine::prime_subgroup_generator();
    let (x, y) = (g.x.into_repr().0, g.y.into_repr().0);
    let p = Point::from_limbs(x, y, false).unwrap();
    assert_eq!(p.x_limbs(), x);
    assert_eq!(p.y_limbs(), y);
    assert!(!p.is_identity());
    assert!(Point::from_limbs(FQ_MODULUS, y, false).is_none());
    assert!(Point::from_limbs(x, FQ_MODULUS, false).is_none());
    assert!(Point::from_limbs(x, [u64::MAX; 6], false).is_none());
    assert!(Point::from_limbs(x, y, true).is_none());
    let mut below = FQ_MODULUS;
    below[0] -= 1;
    assert!(Point::from_limbs(below, below, false).is_some());
}

#[test]
fn identity_is_the_point_at_infinity() {
    let zero = G1Affine::zero();
    let p = Point::from_limbs(zero.x.into_repr().0, zero.y.into_repr().0, true).unwrap();
    assert_eq!(p, Point::identity());
    assert!(p.is_identity());
    assert_eq!(Point::identity().x_limbs(), [0; 6]);
    assert_eq!(Point::identity().y_limbs(), [1, 0, 0, 0, 0, 0]);
    let g = G1Affine::prime_subgroup_generator();
    let q = Point::from_limbs(g.x.into_repr().0, g.y.into_repr().0, false).unwrap();
    assert_ne!(q, Point::identity());
    assert!(Point::from_limbs([0; 6], [1, 0, 0, 0, 0, 0], false).is_some());
    assert_ne!(Point::from_limbs([0; 6], [1, 0, 0, 0, 0, 0], false).unwrap(), Point::identity());
}
