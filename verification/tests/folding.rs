use ark_bls12_381::{Fr, G1Affine, G1Projective};
use ark_ec::ProjectiveCurve;
use ark_ff::{Field, One, PrimeField, UniformRand, Zero};
use poly_commitment::commitment::{
    commit, create_random_basis, inner_product_field, inner_product_group, naive_open,
};
use poly_commitment::error::CommitmentError;
use poly_commitment::folding::{
    challenge_basis, concentrate, concentrate_with_blinders, folded_cross_term, reconstruct,
    verify_reconstruction,
};
use poly_commitment::point::{random_affine_point, Point};
use poly_commitment::polynomial::{blind_polynomial, create_blinding_polynomial, Polynomial};
use poly_commitment::scalar::Scalar;

fn to_scalar(f: Fr) -> Scalar {
    Scalar::from_limbs(f.into_repr().0).unwrap()
}

fn to_fr(s: &Scalar) -> Fr {
    Fr::from_repr(ark_ff::BigInteger256(s.limbs())).unwrap()
}

fn to_point(p: G1Affine) -> Point {
    Point::from_limbs(p.x.into_repr().0, p.y.into_repr().0, p.infinity).unwrap()
}

fn random_scalars(n: usize) -> Vec<Scalar> {
    let mut rng = rand::thread_rng();
    (0..n).map(|_| to_scalar(Fr::rand(&mut rng))).collect()
}

fn nonzero_scalars(n: usize) -> Vec<Scalar> {
    let mut rng = rand::thread_rng();
    let mut out = Vec::new();
    while out.len() < n {
        let f = Fr::rand(&mut rng);
        if !f.is_zero() {
            out.push(to_scalar(f));
        }
    }
    out
}

fn random_polynomial(len: usize) -> Polynomial {
    let mut coeffs = random_scalars(len);
    while coeffs[len - 1].is_zero() {
        coeffs = random_scalars(len);
    }
    Polynomial::from_coefficients_vec(coeffs)
}

fn round_trip(k: usize) {
    let n = 1usize << k;
    let a = random_polynomial(n);
    let b = random_scalars(n);
    let g = create_random_basis(n);
    let u = nonzero_scalars(k);
    let big_h = random_affine_point();
    let big_u = random_affine_point();
    let s = random_scalars(4);
    let (z, rand, s_b, iota) = (s[0], s[1], s[2], s[3]);
    let (compressed, big_l, big_r, l, r, blind) =
        concentrate(&a, &b, &g, &u, big_h, big_u, z, rand, s_b, iota).unwrap();
    assert_eq!(big_l.len(), k);
    assert_eq!(big_r.len(), k);
    assert_eq!(l.len(), k);
    assert_eq!(r.len(), k);
    let cross = folded_cross_term(a.coeffs(), &b, &u, z).unwrap();
    let direct = inner_product_group(a.coeffs(), &g);
    let rebuilt =
        reconstruct(compressed, &big_l, &big_r, &u, big_h, big_u, blind, rand, s_b, iota, cross)
            .unwrap();
    assert_eq!(rebuilt, direct);
    assert_eq!(
        verify_reconstruction(
            direct, compressed, &big_l, &big_r, &u, big_h, big_u, blind, rand, s_b, iota, cross
        ),
        Ok(())
    );
}

#[test]
fn round_trip_of_two() {
    round_trip(1);
}

#[test]
fn round_trip_of_four() {
    round_trip(2);
}

#[test]
fn round_trip_of_eight() {
    round_trip(3);
}

#[test]
fn round_trip_of_sixteen() {
    round_trip(4);
}

#[test]
fn single_element_compresses_to_direct_product() {
    let a = random_polynomial(1);
    let b = random_scalars(1);
    let g = create_random_basis(1);
    let u: Vec<Scalar> = Vec::new();
    let big_h = random_affine_point();
    let big_u = random_affine_point();
    let s = random_scalars(4);
    let (compressed, big_l, big_r, l, r, blind) =
        concentrate(&a, &b, &g, &u, big_h, big_u, s[0], s[1], s[2], s[3]).unwrap();
    assert!(big_l.is_empty());
    assert!(big_r.is_empty());
    assert!(l.is_empty());
    assert!(r.is_empty());
    assert_eq!(compressed, inner_product_group(a.coeffs(), &g));
    assert_eq!(to_fr(&blind), to_fr(&s[1]) + to_fr(&s[2]) * to_fr(&s[3]));
    assert_eq!(
        commit(&a, &g, Scalar::zero(), big_h),
        Ok(inner_product_group(a.coeffs(), &g))
    );
}

#[test]
fn opening_of_eight_coefficients() {
    let n = 8;
    let basis = create_random_basis(n);
    let public_poly = random_polynomial(n - 2);
    let h = random_affine_point();
    let p_poly = random_polynomial(n);
    let s = random_scalars(7);
    let (rand, x, b0, b1, s_b, iota, z) = (s[0], s[1], s[2], s[3], s[4], s[5], s[6]);
    let p_comm = commit(&p_poly, &basis, rand, h).unwrap();
    let p_x = p_poly.evaluate(x);
    let s_poly = create_blinding_polynomial(x, b0, b1, &public_poly);
    assert_eq!(s_poly.coeffs().len(), n);
    assert_eq!(s_poly.evaluate(x), Scalar::zero());
    let s_comm = commit(&s_poly, &basis, s_b, h).unwrap();
    let f_p_poly = blind_polynomial(&p_poly, &s_poly, iota, p_x).unwrap();
    assert_eq!(f_p_poly.evaluate(x), Scalar::zero());
    assert!(naive_open(p_comm, s_comm, &f_p_poly, &basis, rand, h, p_x, s_b, iota));

    let big_u = random_affine_point();
    let mut c = Fr::one();
    let x_powers: Vec<Scalar> = (0..n)
        .map(|_| {
            c *= to_fr(&x);
            to_scalar(c)
        })
        .collect();
    let u = nonzero_scalars(3);
    assert_eq!(f_p_poly.coeffs().len(), n);
    let (compressed, big_l, big_r, _l, _r, blind) =
        concentrate(&f_p_poly, &x_powers, &basis, &u, h, big_u, z, rand, s_b, iota).unwrap();
    let cross = folded_cross_term(f_p_poly.coeffs(), &x_powers, &u, z).unwrap();
    let fp_g = inner_product_group(f_p_poly.coeffs(), &basis);
    let fp_g_log =
        reconstruct(compressed, &big_l, &big_r, &u, h, big_u, blind, rand, s_b, iota, cross)
            .unwrap();
    assert_eq!(fp_g, fp_g_log);
}

#[test]
fn challenge_basis_counts_in_binary() {
    let u = nonzero_scalars(3);
    let f: Vec<Fr> = u.iter().map(to_fr).collect();
    let expected = vec![
        Fr::one(),
        f[0],
        f[1],
        f[1] * f[0],
        f[2],
        f[2] * f[0],
        f[2] * f[1],
        f[2] * f[1] * f[0],
    ];
    let basis = challenge_basis(&u);
    assert_eq!(basis.len(), 8);
    for i in 0..8 {
        assert_eq!(to_fr(&basis[i]), expected[i]);
    }
    assert_eq!(challenge_basis(&Vec::new()), vec![Scalar::one()]);
}

#[test]
fn concentration_of_two_has_the_stated_parts() {
    let mut rng = rand::thread_rng();
    let a: Vec<Fr> = vec![Fr::from(3u64), Fr::from(5u64)];
    let b: Vec<Fr> = vec![Fr::from(7u64), Fr::from(11u64)];
    let g: Vec<G1Projective> = (0..2).map(|_| G1Projective::rand(&mut rng)).collect();
    let h = G1Projective::rand(&mut rng);
    let cross_gen = G1Projective::rand(&mut rng);
    let u = Fr::from(2u64);
    let u_inv = u.inverse().unwrap();
    let (z, rand, s_b, iota) = (Fr::from(13u64), Fr::from(17u64), Fr::from(19u64), Fr::from(23u64));
    let (l, r) = (Fr::from(29u64), Fr::from(31u64));

    let expected_l = g[0].mul((a[1]).into_repr())
        + cross_gen.mul((z * a[1] * b[0]).into_repr())
        + h.mul(l.into_repr());
    let expected_r = g[1].mul((a[0]).into_repr())
        + cross_gen.mul((z * a[0] * b[1]).into_repr())
        + h.mul(r.into_repr());
    let expected_blind = rand + s_b * iota + l * u_inv + r * u;
    let a_res = a[0] + a[1] * u_inv;
    let expected_compressed = (g[0] + g[1].mul(u.into_repr())).mul(a_res.into_repr());

    let a_poly = Polynomial::from_coefficients_vec(a.iter().map(|x| to_scalar(*x)).collect());
    let b_vec: Vec<Scalar> = b.iter().map(|x| to_scalar(*x)).collect();
    let g_vec: Vec<Point> = g.iter().map(|x| to_point(x.into_affine())).collect();
    let out = concentrate_with_blinders(
        &a_poly,
        &b_vec,
        &g_vec,
        &vec![to_scalar(u)],
        to_point(h.into_affine()),
        to_point(cross_gen.into_affine()),
        to_scalar(z),
        to_scalar(rand),
        to_scalar(s_b),
        to_scalar(iota),
        &vec![to_scalar(l)],
        &vec![to_scalar(r)],
    )
    .unwrap();
    assert_eq!(out.0, to_point(expected_compressed.into_affine()));
    assert_eq!(out.1, vec![to_point(expected_l.into_affine())]);
    assert_eq!(out.2, vec![to_point(expected_r.into_affine())]);
    assert_eq!(out.3, vec![to_scalar(l)]);
    assert_eq!(out.4, vec![to_scalar(r)]);
    assert_eq!(out.5, to_scalar(expected_blind));
    assert_eq!(
        folded_cross_term(a_poly.coeffs(), &b_vec, &vec![to_scalar(u)], to_scalar(z)),
        Ok(to_scalar(
            z * (a_res * (b[0] + b[1] * u) - (a[0] * b[0] + a[1] * b[1]))
        ))
    );
}

#[test]
fn concentrate_rejects_lengths_that_do_not_agree() {
    let a = random_polynomial(4);
    let b = random_scalars(4);
    let g = create_random_basis(4);
    let h = random_affine_point();
    let s = Scalar::one();
    let three = nonzero_scalars(3);
    let two = nonzero_scalars(2);
    assert_eq!(
        concentrate(&a, &b, &g, &three, h, h, s, s, s, s).err(),
        Some(CommitmentError::LengthMismatch)
    );
    assert_eq!(
        concentrate(&a, &random_scalars(3), &g, &two, h, h, s, s, s, s).err(),
        Some(CommitmentError::LengthMismatch)
    );
    assert_eq!(
        concentrate(&a, &b, &create_random_basis(8), &two, h, h, s, s, s, s).err(),
        Some(CommitmentError::LengthMismatch)
    );
    let three_long = (random_polynomial(3), random_scalars(3), create_random_basis(3));
    assert_eq!(
        concentrate(&three_long.0, &three_long.1, &three_long.2, &two, h, h, s, s, s, s).err(),
        Some(CommitmentError::LengthMismatch)
    );
    assert_eq!(
        concentrate_with_blinders(&a, &b, &g, &two, h, h, s, s, s, s, &two, &three).err(),
        Some(CommitmentError::LengthMismatch)
    );
    assert!(concentrate(&a, &b, &g, &two, h, h, s, s, s, s).is_ok());
}

#[test]
fn zero_challenge_is_a_division_by_zero() {
    let a = random_polynomial(4);
    let b = random_scalars(4);
    let g = create_random_basis(4);
    let h = random_affine_point();
    let s = Scalar::one();
    let u = vec![Scalar::from_u64(5), Scalar::zero()];
    assert_eq!(
        concentrate(&a, &b, &g, &u, h, h, s, s, s, s).err(),
        Some(CommitmentError::DivisionByZero)
    );
    assert_eq!(
        folded_cross_term(a.coeffs(), &b, &u, s),
        Err(CommitmentError::DivisionByZero)
    );
    let two = create_random_basis(2);
    assert_eq!(
        reconstruct(h, &two, &two, &u, h, h, s, s, s, s, s),
        Err(CommitmentError::DivisionByZero)
    );
    assert_eq!(
        reconstruct(h, &g, &two, &u, h, h, s, s, s, s, s),
        Err(CommitmentError::LengthMismatch)
    );
}

#[test]
fn tampered_concentration_fails_verification() {
    let a = random_polynomial(4);
    let b = random_scalars(4);
    let g = create_random_basis(4);
    let u = nonzero_scalars(2);
    let big_h = random_affine_point();
    let big_u = random_affine_point();
    let s = random_scalars(4);
    let (compressed, big_l, big_r, _l, _r, blind) =
        concentrate(&a, &b, &g, &u, big_h, big_u, s[0], s[1], s[2], s[3]).unwrap();
    let cross = folded_cross_term(a.coeffs(), &b, &u, s[0]).unwrap();
    let direct = inner_product_group(a.coeffs(), &g);
    let mut wrong_l = big_l.clone();
    wrong_l[0] = big_r[0];
    assert_eq!(
        verify_reconstruction(
            direct, compressed, &wrong_l, &big_r, &u, big_h, big_u, blind, s[1], s[2], s[3], cross
        ),
        Err(CommitmentError::VerificationFailed)
    );
    assert_eq!(
        verify_reconstruction(
            direct, compressed, &big_l, &big_r, &u, big_h, big_u, blind, s[1], s[2], s[3], cross
        ),
        Ok(())
    );
    assert_eq!(inner_product_field(&Vec::new(), &b), Scalar::zero());
}

#[test]
fn concentration_with_given_blinders_is_repeatable() {
    let a = random_polynomial(4);
    let b = random_scalars(4);
    let g = create_random_basis(4);
    let u = nonzero_scalars(2);
    let h = random_affine_point();
    let big_u = random_affine_point();
    let s = random_scalars(4);
    let l = random_scalars(2);
    let r = random_scalars(2);
    let first =
        concentrate_with_blinders(&a, &b, &g, &u, h, big_u, s[0], s[1], s[2], s[3], &l, &r);
    let second =
        concentrate_with_blinders(&a, &b, &g, &u, h, big_u, s[0], s[1], s[2], s[3], &l, &r);
    assert_eq!(first, second);
    let drawn = concentrate(&a, &b, &g, &u, h, big_u, s[0], s[1], s[2], s[3]).unwrap();
    let again = concentrate_with_blinders(
        &a, &b, &g, &u, h, big_u, s[0], s[1], s[2], s[3], &drawn.3, &drawn.4,
    );
    assert_eq!(again, Ok(drawn));
}
