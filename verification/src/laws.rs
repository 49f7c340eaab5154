//! What holds of commitments, openings and concentrations.
//!
//! The laws that speak of sums of points hold for points that are
//! multiples of the generator, under `group_laws`: this crate takes the
//! curve arithmetic from outside and proves nothing of it.

use vstd::arithmetic::power2::lemma_pow2_pos;
use vstd::arithmetic::power2::lemma_pow2_unfold;
use vstd::arithmetic::power2::pow2;
use vstd::prelude::*;
use crate::algebra::all_invertible;
use crate::algebra::inner_product_upto;
use crate::algebra::inverses;
use crate::algebra::msm;
use crate::algebra::msm_upto;
use crate::algebra::values;
use crate::commitment::commit_spec;
use crate::commitment::opening_holds;
use crate::evaluation::lemma_eval_product;
use crate::evaluation::lemma_mul_leading;
use crate::evaluation::lemma_trim_nonzero;
use crate::evaluation::lemma_vanishing_factor;
use crate::exponents::left_exponents;
use crate::exponents::lemma_blind_base;
use crate::exponents::lemma_inverses_reduced;
use crate::exponents::lemma_rounds_sum;
use crate::exponents::right_exponents;
use crate::exponents::rounds_valid;
use crate::factors::lemma_blind_added;
use crate::factors::lemma_cancel;
use crate::factors::lemma_challenge_basis_reduced;
use crate::factors::lemma_commit_factor;
use crate::factors::lemma_cross_commitment_factor;
use crate::factors::lemma_difference_of_equals;
use crate::factors::lemma_folded_points_factor;
use crate::factors::lemma_folded_scalars_shape;
use crate::factors::lemma_halves_factor;
use crate::factors::lemma_halves_reduced;
use crate::factors::lemma_ip_trim;
use crate::factors::lemma_nothing_added;
use crate::factors::lemma_opening_algebra;
use crate::factors::lemma_recombine;
use crate::field::fadd;
use crate::field::finv;
use crate::field::fmul;
use crate::field::fsub;
use crate::field::invertible;
use crate::field::lemma_fadd_swap;
use crate::field::lemma_fmul_comm;
use crate::field::lemma_fmul_distributes;
use crate::field::lemma_fmul_reduce;
use crate::field::lemma_fsub_fadd;
use crate::field::lemma_identities;
use crate::field::lemma_inverse_unique;
use crate::field::lemma_product_invertible;
use crate::field::lemma_reduced;
use crate::field::modulus;
use crate::fold_sums::lemma_basis_single;
use crate::folding::bit_product;
use crate::folding::blind_after;
use crate::folding::challenge_basis_spec;
use crate::folding::cross_term;
use crate::folding::folded_points;
use crate::folding::folded_scalars;
use crate::folding::is_concentration;
use crate::folding::left_commitment;
use crate::folding::lemma_challenge_basis_len;
use crate::folding::lengths_agree;
use crate::folding::lower;
use crate::folding::reconstruction;
use crate::folding::right_commitment;
use crate::folding::upper;
use crate::group::all_in_group;
use crate::group::all_reduced;
use crate::group::dlog;
use crate::group::dlogs;
use crate::group::faithful;
use crate::group::group_laws;
use crate::group::in_group;
use crate::group::lemma_add_multiples;
use crate::group::lemma_dlogs_represent;
use crate::group::lemma_msm_factor;
use crate::group::lemma_mul_multiple;
use crate::group::lemma_sub_multiples;
use crate::group::multiple;
use crate::group::represents;
use crate::point::CurvePoint;
use crate::point::Point;
use crate::point::canonical;
use crate::point::curve_add;
use crate::point::curve_mul;
use crate::point::identity;
use crate::polynomial::blinded_polynomial;
use crate::polynomial::blinding_polynomial;
use crate::polynomial::coeff;
use crate::polynomial::poly_add;
use crate::polynomial::poly_eval;
use crate::polynomial::poly_mul;
use crate::polynomial::poly_product;
use crate::polynomial::poly_scale;
use crate::polynomial::poly_sub;
use crate::polynomial::trim;
use crate::scalar::Scalar;
use crate::sums::lemma_ip_add;
use crate::sums::lemma_ip_padded;
use crate::sums::lemma_ip_reduced;
use crate::sums::lemma_ip_scale;
use crate::sums::lemma_ip_sub;
use crate::sums::lemma_ip_update;
use crate::sums::padded;

verus! {

/// Commitments add up: the commitment to the sum of two polynomials under
/// the sum of their randomness is the sum of their commitments. This holds
/// of the sum with and without its trailing zeros, for a basis and a
/// blinding generator that are multiples of the generator of the group,
/// where the curve arithmetic obeys `group_laws`.
pub proof fn commit_is_additive(
    p1: Seq<nat>,
    p2: Seq<nat>,
    basis: Seq<CurvePoint>,
    r1: nat,
    r2: nat,
    h: CurvePoint,
)
    requires
        group_laws(),
        all_in_group(basis),
        in_group(h),
        all_reduced(p1),
        all_reduced(p2),
        p1.len() <= basis.len(),
        p2.len() <= basis.len(),
        r1 < modulus(),
        r2 < modulus(),
    ensures
        commit_spec(poly_add(p1, p2), basis, fadd(r1, r2), h) == curve_add(
            commit_spec(p1, basis, r1, h),
            commit_spec(p2, basis, r2, h),
        ),
        commit_spec(trim(poly_add(p1, p2)), basis, fadd(r1, r2), h) == curve_add(
            commit_spec(p1, basis, r1, h),
            commit_spec(p2, basis, r2, h),
        ),
{
    let factors = dlogs(basis);
    let eta = dlog(h);
    lemma_dlogs_represent(basis);
    let sum = poly_add(p1, p2);
    let n = sum.len();
    assert(all_reduced(sum)) by {
        assert forall|i: int| 0 <= i < sum.len() implies #[trigger] sum[i] < modulus() by {
            lemma_reduced(coeff(p1, i), coeff(p2, i));
        }
    }
    lemma_reduced(r1, r2);
    lemma_ip_trim(sum, factors);
    lemma_commit_factor(p1, basis, factors, r1, eta);
    lemma_commit_factor(p2, basis, factors, r2, eta);
    lemma_commit_factor(sum, basis, factors, fadd(r1, r2), eta);
    lemma_commit_factor(trim(sum), basis, factors, fadd(r1, r2), eta);
    let i1 = inner_product_upto(p1, factors, p1.len());
    let i2 = inner_product_upto(p2, factors, p2.len());
    lemma_ip_add(sum, padded(p1, n), padded(p2, n), factors, n);
    lemma_ip_padded(p1, factors, n);
    lemma_ip_padded(p2, factors, n);
    lemma_fmul_distributes(eta, r1, r2);
    lemma_fadd_swap(i1, i2, fmul(eta, r1), fmul(eta, r2));
    lemma_add_multiples(fadd(i1, fmul(eta, r1)), fadd(i2, fmul(eta, r2)));
}

/// Committing is a function of what is committed to: two commitments to
/// the same coefficients over the same basis, with the same randomness and
/// blinding generator, are the same point.
pub proof fn commit_is_deterministic(
    first: Point,
    second: Point,
    coeffs: Seq<nat>,
    basis: Seq<CurvePoint>,
    r: nat,
    h: CurvePoint,
)
    requires
        first@ == commit_spec(coeffs, basis, r, h),
        second@ == commit_spec(coeffs, basis, r, h),
    ensures
        first == second,
{
    first.lemma_view_injective(second);
}

/// A blinding polynomial vanishes at the challenge point, whatever the
/// blinding factors and the public polynomial are.
pub proof fn blinding_polynomial_vanishes(x: nat, b0: nat, b1: nat, public_poly: Seq<nat>)
    ensures
        poly_eval(blinding_polynomial(x, b0, b1, public_poly), x) == 0,
{
    let vanishing = seq![fsub(0, x), 1nat];
    let first = poly_product(vanishing, trim(seq![b0, b1]));
    lemma_vanishing_factor(x);
    lemma_eval_product(vanishing, trim(seq![b0, b1]), x);
    lemma_identities(poly_eval(trim(seq![b0, b1]), x));
    lemma_eval_product(first, public_poly, x);
    lemma_identities(poly_eval(public_poly, x));
}

/// The degree of a blinding polynomial is two more than that of the public
/// polynomial, where the blinding factor `b1` and the leading coefficient of
/// the public polynomial have inverses.
pub proof fn blinding_polynomial_degree(x: nat, b0: nat, b1: nat, public_poly: Seq<nat>)
    requires
        invertible(b1),
        public_poly.len() > 0,
        invertible(public_poly.last()),
    ensures
        blinding_polynomial(x, b0, b1, public_poly).len() == public_poly.len() + 2,
{
    let vanishing = seq![fsub(0, x), 1nat];
    let factor = seq![b0, b1];
    lemma_identities(finv(b1));
    lemma_identities(finv(public_poly.last()));
    assert(b1 != 0);
    assert(trim(factor) == factor);
    lemma_mul_leading(vanishing, factor);
    let first = poly_mul(vanishing, factor);
    // The leading coefficient of the first product is `b1` reduced.
    lemma_identities(b1);
    lemma_fmul_reduce(b1, finv(b1));
    assert(invertible(first.last())) by {
        lemma_inverse_unique(first.last(), finv(b1));
    }
    lemma_identities(finv(first.last()));
    assert(first.last() != 0);
    lemma_trim_nonzero(first);
    lemma_mul_leading(first, public_poly);
    lemma_product_invertible(first.last(), public_poly.last());
    lemma_trim_nonzero(poly_mul(first, public_poly));
}

/// Building a blinding polynomial is a function of the challenge point,
/// the blinding factors and the public polynomial: two blinding polynomials
/// built from the same of each have the same coefficients.
pub proof fn blinding_is_deterministic(
    first: Seq<Scalar>,
    second: Seq<Scalar>,
    x: nat,
    b0: nat,
    b1: nat,
    public_poly: Seq<nat>,
)
    requires
        values(first) == blinding_polynomial(x, b0, b1, public_poly),
        values(second) == blinding_polynomial(x, b0, b1, public_poly),
    ensures
        first == second,
{
    assert(first.len() == values(first).len());
    assert(second.len() == values(second).len());
    assert forall|i: int| 0 <= i < first.len() implies first[i] == second[i] by {
        assert(values(first)[i] == first[i]@);
        assert(values(second)[i] == second[i]@);
        first[i].lemma_view_injective(second[i]);
    }
    assert(first =~= second);
}

/// An opening that was built as it should be is accepted: for the
/// commitments to `p` and to the blinding polynomial `s`, and the blinded
/// polynomial `p + iota * s - p_x`, the two sides of the opening identity
/// agree, and the blinded polynomial is no longer than the basis. This holds
/// for a basis and a blinding generator that are multiples of the generator
/// of the group, where the curve arithmetic obeys `group_laws`.
pub proof fn opening_is_accepted(
    p: Seq<nat>,
    s: Seq<nat>,
    basis: Seq<CurvePoint>,
    rand: nat,
    h: CurvePoint,
    p_x: nat,
    s_b: nat,
    iota: nat,
)
    requires
        group_laws(),
        all_in_group(basis),
        in_group(h),
        basis.len() > 0,
        p.len() == s.len(),
        p.len() <= basis.len(),
        all_reduced(p),
        all_reduced(s),
        rand < modulus(),
        p_x < modulus(),
        s_b < modulus(),
        iota < modulus(),
    ensures
        blinded_polynomial(p, s, iota, p_x).len() <= basis.len(),
        opening_holds(
            commit_spec(p, basis, rand, h),
            commit_spec(s, basis, s_b, h),
            blinded_polynomial(p, s, iota, p_x),
            basis,
            rand,
            h,
            p_x,
            s_b,
            iota,
        ),
{
    let factors = dlogs(basis);
    let eta = dlog(h);
    lemma_dlogs_represent(basis);
    let n = p.len();
    let scaled = poly_scale(s, iota);
    let q = poly_add(p, scaled);
    let constant = seq![p_x];
    let diff = poly_sub(q, constant);
    let m = diff.len();
    let blinded = blinded_polynomial(p, s, iota, p_x);
    assert(all_reduced(diff)) by {
        assert forall|i: int| 0 <= i < diff.len() implies #[trigger] diff[i] < modulus() by {
            lemma_reduced(coeff(q, i), coeff(constant, i));
        }
    }
    lemma_ip_trim(diff, factors);
    let blinding = fadd(rand, fmul(iota, s_b));
    lemma_reduced(rand, fmul(iota, s_b));
    lemma_commit_factor(p, basis, factors, rand, eta);
    lemma_commit_factor(s, basis, factors, s_b, eta);
    lemma_commit_factor(blinded, basis, factors, blinding, eta);

    // The inner product of the blinded polynomial with the factors.
    let ip = inner_product_upto(p, factors, n);
    let is = inner_product_upto(s, factors, n);
    lemma_ip_reduced(p, factors, n);
    lemma_ip_reduced(s, factors, n);
    lemma_ip_sub(diff, padded(q, m), padded(constant, m), factors, m);
    lemma_ip_padded(q, factors, m);
    lemma_ip_padded(constant, factors, m);
    assert(inner_product_upto(constant, factors, 0) == 0);
    lemma_identities(fmul(p_x, factors[0]));
    lemma_reduced(p_x, factors[0]);
    vstd::arithmetic::div_mod::lemma_small_mod(fmul(p_x, factors[0]), modulus());
    assert(inner_product_upto(constant, factors, 1) == fmul(p_x, factors[0]));
    lemma_ip_add(q, p, scaled, factors, n);
    lemma_ip_scale(scaled, iota, s, factors, n);
    assert(inner_product_upto(blinded, factors, blinded.len()) == fsub(
        fadd(ip, fmul(iota, is)),
        fmul(p_x, factors[0]),
    ));

    // The left side, step by step.
    let b0 = factors[0];
    assert(b0 < modulus() && basis[0] == multiple(b0));
    let pc = fadd(ip, fmul(eta, rand));
    let sc = fadd(is, fmul(eta, s_b));
    lemma_mul_multiple(b0, p_x);
    lemma_sub_multiples(pc, fmul(b0, p_x));
    lemma_mul_multiple(sc, iota);
    lemma_add_multiples(fsub(pc, fmul(b0, p_x)), fmul(sc, iota));
    lemma_opening_algebra(ip, is, b0, p_x, eta, rand, s_b, iota);
}

/// An opening with a wrong value is rejected: where the opening identity
/// holds for the value `p_x`, it does not hold for another value. This holds
/// for commitments, a basis and a blinding generator that are multiples of
/// the generator of the group, where the curve arithmetic obeys `group_laws`
/// and is `faithful`, the first basis element is not the point at infinity
/// and the two values differ: their difference and the factor of the first
/// basis element have inverses.
pub proof fn wrong_value_is_rejected(
    p_comm: CurvePoint,
    s_comm: CurvePoint,
    blinded: Seq<nat>,
    basis: Seq<CurvePoint>,
    rand: nat,
    h: CurvePoint,
    p_x: nat,
    wrong: nat,
    s_b: nat,
    iota: nat,
)
    requires
        group_laws(),
        faithful(),
        all_in_group(basis),
        in_group(h),
        in_group(p_comm),
        in_group(s_comm),
        basis.len() > 0,
        p_x < modulus(),
        wrong < modulus(),
        iota < modulus(),
        invertible(dlog(basis[0])),
        invertible(fsub(p_x, wrong)),
        opening_holds(p_comm, s_comm, blinded, basis, rand, h, p_x, s_b, iota),
    ensures
        !opening_holds(p_comm, s_comm, blinded, basis, rand, h, wrong, s_b, iota),
{
    let b0 = dlog(basis[0]);
    let pc = dlog(p_comm);
    let sc = dlog(s_comm);
    assert(in_group(basis[0]));
    lemma_mul_multiple(sc, iota);
    lemma_mul_multiple(b0, p_x);
    lemma_sub_multiples(pc, fmul(b0, p_x));
    lemma_add_multiples(fsub(pc, fmul(b0, p_x)), fmul(sc, iota));
    lemma_mul_multiple(b0, wrong);
    lemma_sub_multiples(pc, fmul(b0, wrong));
    lemma_add_multiples(fsub(pc, fmul(b0, wrong)), fmul(sc, iota));
    let right = fadd(fsub(pc, fmul(b0, p_x)), fmul(sc, iota));
    let other = fadd(fsub(pc, fmul(b0, wrong)), fmul(sc, iota));
    if opening_holds(p_comm, s_comm, blinded, basis, rand, h, wrong, s_b, iota) {
        assert(multiple(right) == multiple(other));
        assert(right == other);
        lemma_cancel(pc, fmul(b0, p_x), fmul(b0, wrong), fmul(sc, iota));
        lemma_difference_of_equals(b0, p_x, wrong);
        lemma_product_invertible(b0, fsub(p_x, wrong));
    }
}

/// An opening with a changed coefficient is rejected: where the opening
/// identity holds for the blinded polynomial, it does not hold with one of
/// its coefficients changed. This holds for a basis and a blinding generator
/// that are multiples of the generator of the group, where the curve
/// arithmetic obeys `group_laws` and is `faithful`, the basis element of the
/// changed coefficient is not the point at infinity and the coefficient is
/// another one: the change and the factor of that basis element have
/// inverses.
pub proof fn changed_coefficient_is_rejected(
    p_comm: CurvePoint,
    s_comm: CurvePoint,
    blinded: Seq<nat>,
    basis: Seq<CurvePoint>,
    rand: nat,
    h: CurvePoint,
    p_x: nat,
    s_b: nat,
    iota: nat,
    i: int,
    v: nat,
)
    requires
        group_laws(),
        faithful(),
        all_in_group(basis),
        in_group(h),
        0 <= i < blinded.len(),
        blinded.len() <= basis.len(),
        all_reduced(blinded),
        v < modulus(),
        rand < modulus(),
        s_b < modulus(),
        iota < modulus(),
        invertible(dlog(basis[i])),
        invertible(fsub(v, blinded[i])),
        opening_holds(p_comm, s_comm, blinded, basis, rand, h, p_x, s_b, iota),
    ensures
        !opening_holds(p_comm, s_comm, blinded.update(i, v), basis, rand, h, p_x, s_b, iota),
{
    let factors = dlogs(basis);
    let eta = dlog(h);
    let n = blinded.len();
    let changed = blinded.update(i, v);
    let blinding = fadd(rand, fmul(iota, s_b));
    lemma_dlogs_represent(basis);
    lemma_reduced(rand, fmul(iota, s_b));
    assert(all_reduced(changed)) by {
        assert forall|j: int| 0 <= j < changed.len() implies #[trigger] changed[j] < modulus() by {
            if j != i {
                assert(blinded[j] < modulus());
            }
        }
    }
    lemma_commit_factor(blinded, basis, factors, blinding, eta);
    lemma_commit_factor(changed, basis, factors, blinding, eta);
    let first = inner_product_upto(blinded, factors, n);
    let second = inner_product_upto(changed, factors, n);
    let added = fmul(fsub(v, blinded[i]), factors[i]);
    assert forall|j: int| 0 <= j < n implies blinded[j] < modulus() && factors[j]
        < modulus() by {
        assert(factors[j] < modulus() && basis[j] == multiple(factors[j]));
    }
    lemma_ip_update(blinded, factors, n, i, v);
    lemma_ip_reduced(blinded, factors, n);
    lemma_ip_reduced(changed, factors, n);
    lemma_reduced(fsub(v, blinded[i]), factors[i]);
    lemma_reduced(eta, blinding);
    if opening_holds(p_comm, s_comm, changed, basis, rand, h, p_x, s_b, iota) {
        assert(multiple(fadd(first, fmul(eta, blinding))) == multiple(
            fadd(second, fmul(eta, blinding)),
        ));
        assert(fadd(first, fmul(eta, blinding)) == fadd(second, fmul(eta, blinding)));
        lemma_fsub_fadd(first, fmul(eta, blinding));
        lemma_fsub_fadd(second, fmul(eta, blinding));
        vstd::arithmetic::div_mod::lemma_small_mod(first, modulus());
        vstd::arithmetic::div_mod::lemma_small_mod(second, modulus());
        assert(first == second);
        lemma_nothing_added(first, added);
        lemma_product_invertible(fsub(v, blinded[i]), factors[i]);
    }
}

/// The element at index `i` of the challenge basis is the product of the
/// challenges whose bit is set in `i`.
pub proof fn challenge_basis_counts_bits(u: Seq<nat>, i: nat)
    requires
        i < pow2(u.len()),
    ensures
        challenge_basis_spec(u).len() == pow2(u.len()),
        challenge_basis_spec(u)[i as int] == bit_product(u, i),
    decreases u.len(),
{
    lemma_challenge_basis_len(u);
    if u.len() > 0 {
        let top = (u.len() - 1) as nat;
        let half = pow2(top);
        let prev = challenge_basis_spec(u.drop_last());
        lemma_challenge_basis_len(u.drop_last());
        lemma_pow2_unfold(u.len());
        lemma_pow2_pos(top);
        if i < half {
            challenge_basis_counts_bits(u.drop_last(), i);
            vstd::arithmetic::div_mod::lemma_small_mod(i, half);
            vstd::arithmetic::div_mod::lemma_basic_div(i as int, half as int);
        } else {
            let low = (i - half) as nat;
            challenge_basis_counts_bits(u.drop_last(), low);
            vstd::arithmetic::div_mod::lemma_fundamental_div_mod_converse(
                i as int,
                half as int,
                1,
                low as int,
            );
        }
    }
}

/// The round trip of a concentration: recombining the compressed
/// commitment, the commitments `L` and `R` of the rounds and the carried
/// blinding scalar with the challenges gives the direct inner product of
/// the coefficients with the basis. It holds for a basis and generators
/// that are multiples of the generator of the group, where the curve
/// arithmetic obeys `group_laws`, for reduced scalars and challenges that
/// have inverses.
pub proof fn concentration_round_trip(
    a: Seq<nat>,
    b: Seq<nat>,
    g: Seq<CurvePoint>,
    u: Seq<nat>,
    big_h: CurvePoint,
    big_u: CurvePoint,
    z: nat,
    rand: nat,
    s_b: nat,
    iota: nat,
    l: Seq<nat>,
    r: Seq<nat>,
    compressed: CurvePoint,
    big_l: Seq<CurvePoint>,
    big_r: Seq<CurvePoint>,
    blind: nat,
)
    requires
        group_laws(),
        all_in_group(g),
        in_group(big_h),
        in_group(big_u),
        lengths_agree(a.len(), b.len(), g.len(), u.len(), l.len(), r.len()),
        all_reduced(a),
        all_reduced(b),
        all_reduced(u),
        all_reduced(l),
        all_reduced(r),
        all_invertible(u),
        z < modulus(),
        rand < modulus(),
        s_b < modulus(),
        iota < modulus(),
        is_concentration(
            compressed,
            big_l,
            big_r,
            blind,
            a,
            b,
            g,
            u,
            big_h,
            big_u,
            z,
            rand,
            s_b,
            iota,
            l,
            r,
        ),
    ensures
        reconstruction(
            compressed,
            big_l,
            big_r,
            u,
            big_h,
            big_u,
            blind,
            rand,
            s_b,
            iota,
            cross_term(a, b, u, z),
        ) == msm(a, g),
{
    let k = u.len();
    let n = a.len();
    let gamma = dlogs(g);
    let eta = dlog(big_h);
    let mu = dlog(big_u);
    lemma_dlogs_represent(g);
    assert(all_reduced(gamma)) by {
        assert forall|i: int| 0 <= i < gamma.len() implies #[trigger] gamma[i] < modulus() by {
            assert(gamma[i] < modulus() && g[i] == multiple(gamma[i]));
        }
    }
    assert(rounds_valid(a, b, gamma, u, eta, mu, z, l, r));
    lemma_rounds_sum(a, b, gamma, u, eta, mu, z, l, r);
    lemma_inverses_reduced(u);
    let basis = challenge_basis_spec(u);
    let inverse_basis = challenge_basis_spec(inverses(u));
    lemma_challenge_basis_len(u);
    lemma_challenge_basis_len(inverses(u));
    lemma_challenge_basis_reduced(u);
    assert(inverses(u).len() == k);

    // The commitments of the rounds by their factors.
    let lefts = left_exponents(a, b, gamma, u, eta, mu, z, l);
    let rights = right_exponents(a, b, gamma, u, eta, mu, z, r);
    assert forall|j: int| 0 <= j < k implies #[trigger] lefts[j] < modulus() && big_l[j]
        == multiple(lefts[j]) && rights[j] < modulus() && big_r[j] == multiple(rights[j]) by {
        let t = (k - 1 - j) as nat;
        let at = folded_scalars(a, inverses(u), t);
        let bt = folded_scalars(b, u, t);
        let gt = folded_points(g, u, t);
        let gammat = folded_scalars(gamma, u, t);
        lemma_folded_scalars_shape(a, inverses(u), t);
        lemma_folded_points_factor(g, gamma, u, t);
        lemma_halves_factor(gt, gammat);
        lemma_halves_reduced(at);
        assert(l[j] < modulus());
        assert(r[j] < modulus());
        lemma_cross_commitment_factor(
            upper(at),
            lower(gt),
            lower(gammat),
            lower(bt),
            eta,
            mu,
            z,
            l[j],
        );
        lemma_cross_commitment_factor(
            lower(at),
            upper(gt),
            upper(gammat),
            upper(bt),
            eta,
            mu,
            z,
            r[j],
        );
        assert(big_l[j] == left_commitment(a, b, g, u, big_h, big_u, z, l, j));
        assert(big_r[j] == right_commitment(a, b, g, u, big_h, big_u, z, r, j));
    }
    assert(represents(big_l, lefts));
    assert forall|j: int| 0 <= j < k implies #[trigger] rights[j] < modulus() && big_r[j]
        == multiple(rights[j]) by {
        assert(lefts[j] < modulus());
    }
    assert(represents(big_r, rights));
    lemma_msm_factor(inverses(u), big_l, lefts, k);
    lemma_msm_factor(u, big_r, rights, k);
    let sl = inner_product_upto(inverses(u), lefts, k);
    let sp = inner_product_upto(u, rights, k);

    // The compressed commitment and the direct inner product by their factors.
    let a_res = inner_product_upto(a, inverse_basis, n);
    let g_res = inner_product_upto(basis, gamma, n);
    let b_res = inner_product_upto(b, basis, n);
    let x = inner_product_upto(a, gamma, n);
    let y = inner_product_upto(a, b, n);
    lemma_msm_factor(basis, g, gamma, n);
    lemma_ip_reduced(a, inverse_basis, n);
    lemma_mul_multiple(g_res, a_res);
    lemma_fmul_comm(g_res, a_res);
    lemma_msm_factor(a, g, gamma, n);
    assert(compressed == multiple(fmul(a_res, g_res)));
    assert(msm(a, g) == multiple(x));

    // What the rounds added to the blinding scalar.
    let base = fadd(rand, fmul(s_b, iota));
    let sg = blind_after(0, l, r, u, k);
    lemma_reduced(rand, fmul(s_b, iota));
    lemma_blind_base(base, l, r, u, k);
    lemma_blind_base(0, l, r, u, k);
    lemma_blind_added(rand, s_b, iota, sg, blind);
    let added = fsub(fsub(blind, rand), fmul(iota, s_b));
    assert(added == sg);

    // The recombination, step by step.
    let d = fsub(fmul(a_res, b_res), y);
    let cross = cross_term(a, b, u, z);
    lemma_reduced(fmul(a_res, b_res), y);
    lemma_reduced(z, d);
    assert(cross == fmul(z, d));
    lemma_mul_multiple(eta, sg);
    lemma_mul_multiple(mu, cross);
    let e1 = fadd(fmul(a_res, g_res), fmul(eta, sg));
    lemma_reduced(a_res, g_res);
    lemma_add_multiples(fmul(a_res, g_res), fmul(eta, sg));
    let e2 = fadd(e1, fmul(mu, cross));
    lemma_add_multiples(e1, fmul(mu, cross));
    let e3 = fsub(e2, sl);
    lemma_sub_multiples(e2, sl);
    lemma_sub_multiples(e3, sp);
    lemma_recombine(fmul(a_res, g_res), x, d, mu, z, eta, sg, sl, sp);
}

/// A single element concentrates to the direct inner product: with one
/// coefficient there is no challenge and no round, the compressed
/// commitment is the inner product of the coefficient with the basis, and
/// the carried blinding scalar is its start.
pub proof fn single_element_concentration(
    a: Seq<nat>,
    b: Seq<nat>,
    g: Seq<CurvePoint>,
    u: Seq<nat>,
    big_h: CurvePoint,
    big_u: CurvePoint,
    z: nat,
    rand: nat,
    s_b: nat,
    iota: nat,
    l: Seq<nat>,
    r: Seq<nat>,
    compressed: CurvePoint,
    big_l: Seq<CurvePoint>,
    big_r: Seq<CurvePoint>,
    blind: nat,
)
    requires
        a.len() == 1,
        a[0] < modulus(),
        canonical(g[0]),
        lengths_agree(a.len(), b.len(), g.len(), u.len(), l.len(), r.len()),
        is_concentration(
            compressed,
            big_l,
            big_r,
            blind,
            a,
            b,
            g,
            u,
            big_h,
            big_u,
            z,
            rand,
            s_b,
            iota,
            l,
            r,
        ),
    ensures
        u.len() == 0,
        big_l.len() == 0,
        big_r.len() == 0,
        compressed == msm(a, g),
        blind == fadd(rand, fmul(s_b, iota)),
{
    if u.len() > 0 {
        vstd::arithmetic::power2::lemma2_to64();
        vstd::arithmetic::power2::lemma_pow2_strictly_increases(0, u.len());
    }
    assert(u =~= Seq::<nat>::empty());
    assert(inverses(u) =~= Seq::<nat>::empty());
    let basis = challenge_basis_spec(u);
    assert(basis =~= seq![1nat]);
    lemma_basis_single(a);
    assert(msm_upto(basis, g, 0) == identity());
    assert(msm_upto(basis, g, 1) == curve_add(identity(), curve_mul(g[0], 1)));
    assert(msm_upto(a, g, 0) == identity());
    assert(msm_upto(a, g, 1) == curve_add(identity(), curve_mul(g[0], a[0])));
}

} // verus!
