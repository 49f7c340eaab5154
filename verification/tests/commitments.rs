use ark_bls12_381::{Fr, G1Affine, G1Projective};
use ark_ec::{AffineCurve, ProjectiveCurve};
use ark_ff::{Field, PrimeField, UniformRand, Zero};
use poly_commitment::commitment::{
    commit, create_random_basis, inner_product_field, inner_product_field_inverse,
    inner_product_group, naive_open,
};
use poly_commitment::error::CommitmentError;
use poly_commitment::point::{random_affine_point, Point};
use poly_commitment::polynomial::{blind_polynomial, create_blinding_polynomial, Polynomial};
use poly_commitment::scalar::Scalar;

fn to_scalar(f: Fr) -> Scalar {
    Scalar::from_limbs(f.into_repr().0).unwrap()
}

fn to_fr(s: &Scalar) -> Fr {
    Fr::from_repr(ark_ff::BigInteger256(s.limbs())).unwrap()
}

fn to_point(p: G1Affine) -> Point {
    Point::from_limbs(p.x.into_repr().0, p.y.into_repr().0, p.infinity).unwrap()
}

fn to_affine(p: &Point) -> G1Affine {
    G1Affine::new(
        ark_bls12_381::Fq::from_repr(ark_ff::BigInteger384(p.x_limbs())).unwrap(),
        ark_bls12_381::Fq::from_repr(ark_ff::BigInteger384(p.y_limbs())).unwrap(),
        p.is_identity(),
    )
}

fn random_frs(n: usize) -> Vec<Fr> {
    let mut rng = rand::thread_rng();
    (0..n).map(|_| Fr::rand(&mut rng)).collect()
}

fn scalars(v: &[Fr]) -> Vec<Scalar> {
    v.iter().map(|x| to_scalar(*x)).collect()
}

fn polynomial(v: &[Fr]) -> Polynomial {
    Polynomial::from_coefficients_vec(scalars(v))
}

fn nonzero_top(n: usize) -> Vec<Fr> {
    let mut v = random_frs(n);
    while v[n - 1].is_zero() {
        v = random_frs(n);
    }
    v
}

#[test]
fn inner_product_field_matches_field_arithmetic() {
    let a = random_frs(5);
    let b = random_frs(5);
    let expected: Fr = a.iter().zip(&b).map(|(l, r)| *l * r).sum();
    assert_eq!(inner_product_field(&scalars(&a), &scalars(&b)), to_scalar(expected));
}

#[test]
fn inner_product_field_of_small_numbers() {
    let left = vec![Scalar::from_u64(2), Scalar::from_u64(3), Scalar::from_u64(5)];
    let right = vec![Scalar::from_u64(7), Scalar::from_u64(11), Scalar::from_u64(13)];
    assert_eq!(inner_product_field(&left, &right), Scalar::from_u64(112));
    assert_eq!(inner_product_field(&left, &Vec::new()), Scalar::zero());
}

#[test]
fn inner_product_stops_at_the_shorter_vector() {
    let left = vec![Scalar::from_u64(2), Scalar::from_u64(3), Scalar::from_u64(5)];
    let right = vec![Scalar::from_u64(7), Scalar::from_u64(11)];
    assert_eq!(inner_product_field(&left, &right), Scalar::from_u64(47));
    assert_eq!(inner_product_field(&right, &left), Scalar::from_u64(47));
    let basis = create_random_basis(2);
    let short = vec![Scalar::from_u64(2), Scalar::from_u64(3)];
    assert_eq!(inner_product_group(&left, &basis), inner_product_group(&short, &basis));
    let one = vec![Scalar::one()];
    assert_eq!(inner_product_group(&one, &basis), basis[0]);
}

#[test]
fn inner_product_field_wraps_at_the_field_order() {
    let minus_one = to_scalar(-Fr::from(1u64));
    let left = vec![minus_one, Scalar::from_u64(1)];
    let right = vec![minus_one, Scalar::from_u64(1)];
    assert_eq!(inner_product_field(&left, &right), Scalar::from_u64(2));
    let two = vec![Scalar::from_u64(2)];
    assert_eq!(inner_product_field(&vec![minus_one], &two), to_scalar(-Fr::from(2u64)));
}

#[test]
fn inner_product_field_inverse_divides() {
    let a = random_frs(4);
    let mut b = random_frs(4);
    for x in b.iter_mut() {
        if x.is_zero() {
            *x = Fr::from(3u64);
        }
    }
    let expected: Fr = a.iter().zip(&b).map(|(l, r)| *l * r.inverse().unwrap()).sum();
    assert_eq!(
        inner_product_field_inverse(&scalars(&a), &scalars(&b)),
        Ok(to_scalar(expected))
    );
    let six = vec![Scalar::from_u64(6), Scalar::from_u64(20)];
    let by = vec![Scalar::from_u64(3), Scalar::from_u64(5)];
    assert_eq!(inner_product_field_inverse(&six, &by), Ok(Scalar::from_u64(6)));
}

#[test]
fn inner_product_field_inverse_refuses_zero() {
    let left = vec![Scalar::from_u64(6), Scalar::from_u64(20)];
    let right = vec![Scalar::from_u64(3), Scalar::zero()];
    assert_eq!(
        inner_product_field_inverse(&left, &right),
        Err(CommitmentError::DivisionByZero)
    );
    let short = vec![Scalar::from_u64(6)];
    assert_eq!(inner_product_field_inverse(&short, &right), Ok(Scalar::from_u64(2)));
}

#[test]
fn inner_product_group_matches_curve_arithmetic() {
    let mut rng = rand::thread_rng();
    let a = random_frs(4);
    let g: Vec<G1Affine> = (0..4).map(|_| G1Projective::rand(&mut rng).into_affine()).collect();
    let expected = a
        .iter()
        .zip(&g)
        .map(|(c, b)| b.into_projective().mul(c.into_repr()))
        .sum::<G1Projective>()
        .into_affine();
    let basis: Vec<Point> = g.iter().map(|x| to_point(*x)).collect();
    assert_eq!(inner_product_group(&scalars(&a), &basis), to_point(expected));
    assert_eq!(inner_product_group(&Vec::new(), &basis), Point::identity());
}

#[test]
fn inner_product_group_of_zero_and_one() {
    let basis = create_random_basis(2);
    let zeros = vec![Scalar::zero(), Scalar::zero()];
    assert_eq!(inner_product_group(&zeros, &basis), Point::identity());
    let second = vec![Scalar::zero(), Scalar::one()];
    assert_eq!(inner_product_group(&second, &basis), basis[1]);
    let twice = vec![Scalar::from_u64(2)];
    let doubled = to_affine(&basis[0]).into_projective().double().into_affine();
    assert_eq!(inner_product_group(&twice, &basis), to_point(doubled));
}

#[test]
fn commit_is_inner_product_plus_blinding() {
    let a = nonzero_top(4);
    let basis = create_random_basis(6);
    let h = random_affine_point();
    let r = random_frs(1)[0];
    let expected = (a
        .iter()
        .zip(&basis)
        .map(|(c, b)| to_affine(b).into_projective().mul(c.into_repr()))
        .sum::<G1Projective>()
        + to_affine(&h).mul(r.into_repr()))
    .into_affine();
    assert_eq!(commit(&polynomial(&a), &basis, to_scalar(r), h), Ok(to_point(expected)));
}

#[test]
fn commit_rejects_a_basis_that_is_too_short() {
    let poly = Polynomial::from_coefficients_vec(vec![Scalar::from_u64(1), Scalar::from_u64(2)]);
    let basis = vec![to_point(G1Affine::prime_subgroup_generator())];
    let h = to_point(G1Affine::zero());
    assert_eq!(commit(&poly, &basis, Scalar::zero(), h), Err(CommitmentError::LengthMismatch));
    assert!(commit(&poly, &create_random_basis(2), Scalar::zero(), h).is_ok());
}

#[test]
fn commit_is_additive() {
    for n in [1usize, 2, 4, 8] {
        let p1 = nonzero_top(n);
        let p2 = nonzero_top(n);
        let sum: Vec<Fr> = p1.iter().zip(&p2).map(|(x, y)| *x + y).collect();
        let r = random_frs(2);
        let basis = create_random_basis(n);
        let h = random_affine_point();
        let c1 = commit(&polynomial(&p1), &basis, to_scalar(r[0]), h).unwrap();
        let c2 = commit(&polynomial(&p2), &basis, to_scalar(r[1]), h).unwrap();
        let both = commit(&polynomial(&sum), &basis, to_scalar(r[0] + r[1]), h).unwrap();
        let added = (to_affine(&c1).into_projective() + to_affine(&c2).into_projective())
            .into_affine();
        assert_eq!(both, to_point(added));
    }
}

#[test]
fn commit_gives_the_same_point_each_time() {
    let p = polynomial(&nonzero_top(4));
    let basis = create_random_basis(4);
    let h = random_affine_point();
    let r = to_scalar(random_frs(1)[0]);
    assert_eq!(commit(&p, &basis, r, h), commit(&p.clone(), &basis.clone(), r, h));
}

#[test]
fn random_points_differ() {
    let basis = create_random_basis(3);
    assert_eq!(basis.len(), 3);
    assert_ne!(basis[0], basis[1]);
    assert_ne!(basis[1], basis[2]);
    assert!(to_affine(&basis[0]).is_on_curve());
    assert!(to_affine(&basis[0]).is_in_correct_subgroup_assuming_on_curve());
    assert!(create_random_basis(0).is_empty());
}

struct Opening {
    p_comm: Point,
    s_comm: Point,
    blinded: Polynomial,
    basis: Vec<Point>,
    rand: Scalar,
    h: Point,
    p_x: Scalar,
    s_b: Scalar,
    iota: Scalar,
}

fn opening(n: usize) -> Opening {
    let basis = create_random_basis(n);
    let h = random_affine_point();
    let p_poly = polynomial(&nonzero_top(n));
    let public_poly = polynomial(&nonzero_top(n - 2));
    let s = scalars(&random_frs(6));
    let (rand, x, b0, b1, s_b, iota) = (s[0], s[1], s[2], s[3], s[4], s[5]);
    let p_comm = commit(&p_poly, &basis, rand, h).unwrap();
    let p_x = p_poly.evaluate(x);
    let s_poly = create_blinding_polynomial(x, b0, b1, &public_poly);
    let s_comm = commit(&s_poly, &basis, s_b, h).unwrap();
    let blinded = blind_polynomial(&p_poly, &s_poly, iota, p_x).unwrap();
    Opening { p_comm, s_comm, blinded, basis, rand, h, p_x, s_b, iota }
}

#[test]
fn naive_open_accepts_a_well_built_opening() {
    for n in [4usize, 8] {
        let o = opening(n);
        assert!(naive_open(
            o.p_comm, o.s_comm, &o.blinded, &o.basis, o.rand, o.h, o.p_x, o.s_b, o.iota
        ));
    }
}

#[test]
fn naive_open_rejects_a_changed_coefficient() {
    let o = opening(8);
    for i in 0..8 {
        let mut coeffs = o.blinded.coeffs().clone();
        coeffs[i] = to_scalar(to_fr(&coeffs[i]) + Fr::from(1u64));
        let changed = Polynomial::from_coefficients_vec(coeffs);
        assert!(!naive_open(
            o.p_comm, o.s_comm, &changed, &o.basis, o.rand, o.h, o.p_x, o.s_b, o.iota
        ));
    }
}

#[test]
fn naive_open_rejects_a_wrong_value() {
    let o = opening(8);
    let wrong = to_scalar(to_fr(&o.p_x) + Fr::from(1u64));
    assert!(!naive_open(
        o.p_comm, o.s_comm, &o.blinded, &o.basis, o.rand, o.h, wrong, o.s_b, o.iota
    ));
    assert!(!naive_open(
        o.p_comm, o.s_comm, &o.blinded, &o.basis, o.rand, o.h, o.p_x, o.s_b, wrong
    ));
}

#[test]
fn naive_open_rejects_a_basis_that_does_not_fit() {
    let o = opening(4);
    let empty: Vec<Point> = Vec::new();
    assert!(!naive_open(
        o.p_comm, o.s_comm, &o.blinded, &empty, o.rand, o.h, o.p_x, o.s_b, o.iota
    ));
    let short = o.basis[..3].to_vec();
    assert!(!naive_open(
        o.p_comm, o.s_comm, &o.blinded, &short, o.rand, o.h, o.p_x, o.s_b, o.iota
    ));
}

#[test]
fn the_scheme_is_at_hand_in_one_module() {
    let h = poly_commitment::commitment::random_affine_point();
    let basis = poly_commitment::commitment::create_random_basis(2);
    let s = poly_commitment::commitment::create_blinding_polynomial(
        Scalar::from_u64(3),
        Scalar::from_u64(1),
        Scalar::from_u64(1),
        &Polynomial::from_coefficients_vec(Vec::new()),
    );
    assert!(s.coeffs().is_empty());
    let a = polynomial(&nonzero_top(2));
    let b = scalars(&random_frs(2));
    let u = vec![Scalar::from_u64(9)];
    let one = Scalar::one();
    let out =
        poly_commitment::commitment::concentrate(&a, &b, &basis, &u, h, h, one, one, one, one)
            .unwrap();
    assert_eq!(out.1.len(), 1);
    assert_eq!(out.2.len(), 1);
}
