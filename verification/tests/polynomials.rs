use ark_bls12_381::Fr;
use ark_ff::{One, PrimeField, UniformRand, Zero};
use ark_poly::univariate::DensePolynomial;
use ark_poly::{Polynomial as ArkPolynomial, UVPolynomial};
use poly_commitment::error::CommitmentError;
use poly_commitment::polynomial::{blind_polynomial, create_blinding_polynomial, Polynomial};
use poly_commitment::scalar::Scalar;

fn to_scalar(f: Fr) -> Scalar {
    Scalar::from_limbs(f.into_repr().0).unwrap()
}

fn to_fr(s: &Scalar) -> Fr {
    Fr::from_repr(ark_ff::BigInteger256(s.limbs())).unwrap()
}

fn small(v: &[u64]) -> Polynomial {
    Polynomial::from_coefficients_vec(v.iter().map(|x| Scalar::from_u64(*x)).collect())
}

fn to_dense(p: &Polynomial) -> DensePolynomial<Fr> {
    DensePolynomial::from_coefficients_vec(p.coeffs().iter().map(to_fr).collect())
}

fn from_dense(p: &DensePolynomial<Fr>) -> Vec<Scalar> {
    p.coeffs.iter().map(|x| to_scalar(*x)).collect()
}

fn random_dense(degree: usize) -> DensePolynomial<Fr> {
    let mut rng = rand::thread_rng();
    loop {
        let p: DensePolynomial<Fr> = DensePolynomial::rand(degree, &mut rng);
        if p.coeffs.len() == degree + 1 {
            return p;
        }
    }
}

#[test]
fn trailing_zeros_are_dropped() {
    let p = small(&[1, 2, 0, 3, 0, 0]);
    assert_eq!(p.coeffs().len(), 4);
    assert_eq!(p.coeffs()[3], Scalar::from_u64(3));
    assert_eq!(p.coeffs()[2], Scalar::zero());
    assert!(small(&[0, 0, 0]).coeffs().is_empty());
    assert!(small(&[]).coeffs().is_empty());
    assert_eq!(small(&[5]).coeffs().len(), 1);
    assert_eq!(p.clone().coeffs(), p.coeffs());
}

#[test]
fn evaluate_by_hand() {
    let p = small(&[1, 2, 3]);
    assert_eq!(p.evaluate(Scalar::from_u64(2)), Scalar::from_u64(17));
    assert_eq!(p.evaluate(Scalar::zero()), Scalar::from_u64(1));
    assert_eq!(p.evaluate(Scalar::one()), Scalar::from_u64(6));
    assert_eq!(small(&[]).evaluate(Scalar::from_u64(9)), Scalar::zero());
}

#[test]
fn evaluate_matches_the_dense_polynomial() {
    let mut rng = rand::thread_rng();
    let dense = random_dense(7);
    let x = Fr::rand(&mut rng);
    let p = Polynomial::from_coefficients_vec(from_dense(&dense));
    assert_eq!(p.evaluate(to_scalar(x)), to_scalar(dense.evaluate(&x)));
}

#[test]
fn blinding_polynomial_by_hand() {
    // (X - 2) * (5 * X + 3) * (X + 1) = 5 X^3 - 2 X^2 - 13 X - 6
    let p = create_blinding_polynomial(
        Scalar::from_u64(2),
        Scalar::from_u64(3),
        Scalar::from_u64(5),
        &small(&[1, 1]),
    );
    let expected = vec![
        to_scalar(-Fr::from(6u64)),
        to_scalar(-Fr::from(13u64)),
        to_scalar(-Fr::from(2u64)),
        Scalar::from_u64(5),
    ];
    assert_eq!(p.coeffs(), &expected);
    assert_eq!(p.evaluate(Scalar::from_u64(2)), Scalar::zero());
    assert_eq!(p.evaluate(Scalar::from_u64(1)), to_scalar(-Fr::from(16u64)));
}

#[test]
fn blinding_polynomial_is_the_product_of_its_factors() {
    let mut rng = rand::thread_rng();
    let public_poly = random_dense(5);
    let (x, b0, b1) = (Fr::rand(&mut rng), Fr::rand(&mut rng), Fr::rand(&mut rng));
    let vanishing = DensePolynomial::from_coefficients_vec(vec![-x, Fr::one()]);
    let blinding = DensePolynomial::from_coefficients_vec(vec![b0, b1]);
    let expected = vanishing.naive_mul(&blinding).naive_mul(&public_poly);
    let got = create_blinding_polynomial(
        to_scalar(x),
        to_scalar(b0),
        to_scalar(b1),
        &Polynomial::from_coefficients_vec(from_dense(&public_poly)),
    );
    assert_eq!(got.coeffs(), &from_dense(&expected));
    assert_eq!(got.coeffs().len(), 8);
    assert_eq!(to_dense(&got), expected);
}

#[test]
fn blinding_polynomial_vanishes_at_the_challenge() {
    let mut rng = rand::thread_rng();
    for degree in [0usize, 1, 5, 13] {
        let public_poly = Polynomial::from_coefficients_vec(from_dense(&random_dense(degree)));
        let x = to_scalar(Fr::rand(&mut rng));
        let b0 = to_scalar(Fr::rand(&mut rng));
        let b1 = to_scalar(Fr::rand(&mut rng));
        let s = create_blinding_polynomial(x, b0, b1, &public_poly);
        assert_eq!(s.evaluate(x), Scalar::zero());
        assert_eq!(s.coeffs().len(), degree + 3);
    }
}

#[test]
fn blinding_polynomial_of_zero_factors_is_zero() {
    let x = Scalar::from_u64(4);
    let zero = Scalar::zero();
    assert!(create_blinding_polynomial(x, zero, zero, &small(&[1, 2])).coeffs().is_empty());
    assert!(create_blinding_polynomial(x, Scalar::one(), Scalar::one(), &small(&[]))
        .coeffs()
        .is_empty());
    let constant = create_blinding_polynomial(zero, Scalar::from_u64(3), zero, &small(&[2]));
    assert_eq!(constant.coeffs(), &vec![Scalar::zero(), Scalar::from_u64(6)]);
    assert_eq!(constant.evaluate(zero), Scalar::zero());
}

#[test]
fn blinding_polynomial_gives_the_same_polynomial_each_time() {
    let public_poly = small(&[4, 0, 9, 1]);
    let (x, b0, b1) = (Scalar::from_u64(11), Scalar::from_u64(12), Scalar::from_u64(13));
    let first = create_blinding_polynomial(x, b0, b1, &public_poly);
    let second = create_blinding_polynomial(x, b0, b1, &public_poly.clone());
    assert_eq!(first.coeffs(), second.coeffs());
}

#[test]
fn blinded_polynomial_by_hand() {
    // (1 + 2 X + 3 X^2) + 2 * (4 + 5 X + 6 X^2) - 7 = 2 + 12 X + 15 X^2
    let p = small(&[1, 2, 3]);
    let s = small(&[4, 5, 6]);
    let f = blind_polynomial(&p, &s, Scalar::from_u64(2), Scalar::from_u64(7)).unwrap();
    assert_eq!(
        f.coeffs(),
        &vec![Scalar::from_u64(2), Scalar::from_u64(12), Scalar::from_u64(15)]
    );
    let below = blind_polynomial(&p, &s, Scalar::zero(), Scalar::from_u64(2)).unwrap();
    assert_eq!(below.coeffs()[0], to_scalar(-Fr::from(1u64)));
}

#[test]
fn blinded_polynomial_matches_the_dense_polynomial() {
    let mut rng = rand::thread_rng();
    let p = random_dense(7);
    let s = random_dense(7);
    let (iota, p_x) = (Fr::rand(&mut rng), Fr::rand(&mut rng));
    let expected = &(p.clone() + &s * iota) - &DensePolynomial::from_coefficients_vec(vec![p_x]);
    let got = blind_polynomial(
        &Polynomial::from_coefficients_vec(from_dense(&p)),
        &Polynomial::from_coefficients_vec(from_dense(&s)),
        to_scalar(iota),
        to_scalar(p_x),
    )
    .unwrap();
    assert_eq!(got.coeffs(), &from_dense(&expected));
}

#[test]
fn blinded_polynomial_drops_what_cancels() {
    let p = small(&[7, 0, 1]);
    let minus_one = to_scalar(-Fr::one());
    let s = small(&[3, 4, 1]);
    let f = blind_polynomial(&p, &s, minus_one, Scalar::from_u64(4)).unwrap();
    assert_eq!(f.coeffs(), &vec![Scalar::zero(), to_scalar(-Fr::from(4u64))]);
    let empty = small(&[]);
    let nothing = blind_polynomial(&empty, &empty, Scalar::one(), Scalar::zero()).unwrap();
    assert!(nothing.coeffs().is_empty());
    let constant = blind_polynomial(&empty, &empty, Scalar::one(), Scalar::one()).unwrap();
    assert_eq!(constant.coeffs(), &vec![minus_one]);
    assert!(!Fr::one().is_zero());
}

#[test]
fn blinding_with_another_degree_is_refused() {
    let p = small(&[1, 2, 3]);
    let s = small(&[4, 5]);
    assert_eq!(
        blind_polynomial(&p, &s, Scalar::one(), Scalar::one()).err(),
        Some(CommitmentError::InvalidDegree)
    );
    assert_eq!(
        blind_polynomial(&s, &p, Scalar::one(), Scalar::one()).err(),
        Some(CommitmentError::InvalidDegree)
    );
}
