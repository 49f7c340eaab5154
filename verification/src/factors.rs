//! Points taken by their factors of the generator: what commitments and
//! the steps of a recombination come to when each point is `k * G`.

use vstd::arithmetic::power2::lemma_pow2_unfold;
use vstd::arithmetic::power2::pow2;
use vstd::prelude::*;
use crate::algebra::inner_product;
use crate::algebra::inner_product_upto;
use crate::algebra::shorter;
use crate::commitment::commit_spec;
use crate::exponents::cross_exponent;
use crate::field::fadd;
use crate::field::fmul;
use crate::field::fsub;
use crate::field::lemma_fmul_comm;
use crate::field::lemma_identities;
use crate::field::lemma_red_add;
use crate::field::lemma_red_mul;
use crate::field::lemma_red_self;
use crate::field::lemma_red_sub;
use crate::field::lemma_reduced;
use crate::field::modulus;
use crate::fold_sums::lemma_fold_reduced;
use crate::folding::challenge_basis_spec;
use crate::folding::cross_commitment;
use crate::folding::fold_points;
use crate::folding::fold_scalars;
use crate::folding::folded_points;
use crate::folding::folded_scalars;
use crate::folding::lower;
use crate::folding::upper;
use crate::group::all_reduced;
use crate::group::group_laws;
use crate::group::lemma_add_multiples;
use crate::group::lemma_msm_factor;
use crate::group::lemma_mul_multiple;
use crate::group::multiple;
use crate::group::represents;
use crate::point::CurvePoint;
use crate::polynomial::trim;
use crate::sums::lemma_ip_reduced;
use crate::sums::lemma_ip_same;

verus! {

/// A fold of multiples of the generator gives the multiples by the folded
/// factors.
pub proof fn lemma_fold_points_factor(g: Seq<CurvePoint>, gamma: Seq<nat>, w: nat)
    requires
        group_laws(),
        represents(g, gamma),
        w < modulus(),
    ensures
        represents(fold_points(g, w), fold_scalars(gamma, w)),
{
    let half = g.len() / 2;
    assert forall|i: int| 0 <= i < half implies #[trigger] fold_scalars(gamma, w)[i] < modulus()
        && fold_points(g, w)[i] == multiple(fold_scalars(gamma, w)[i]) by {
        assert(gamma[i] < modulus() && g[i] == multiple(gamma[i]));
        assert(gamma[i + half] < modulus() && g[i + half] == multiple(gamma[i + half]));
        lemma_mul_multiple(gamma[i + half], w);
        lemma_fmul_comm(gamma[i + half], w);
        lemma_add_multiples(gamma[i], fmul(w, gamma[i + half]));
    }
}

/// Folded multiples of the generator are the multiples by the folded
/// factors.
pub proof fn lemma_folded_points_factor(g: Seq<CurvePoint>, gamma: Seq<nat>, u: Seq<nat>, t: nat)
    requires
        group_laws(),
        represents(g, gamma),
        all_reduced(u),
        t <= u.len(),
    ensures
        represents(folded_points(g, u, t), folded_scalars(gamma, u, t)),
    decreases t,
{
    if t > 0 {
        lemma_folded_points_factor(g, gamma, u, (t - 1) as nat);
        assert(u[u.len() - t] < modulus());
        lemma_fold_points_factor(
            folded_points(g, u, (t - 1) as nat),
            folded_scalars(gamma, u, (t - 1) as nat),
            u[u.len() - t],
        );
    }
}

/// Folding leaves reduced elements, and `2^(k - t)` of them after `t`
/// folds of `2^k`.
pub proof fn lemma_folded_scalars_shape(s: Seq<nat>, w: Seq<nat>, t: nat)
    requires
        all_reduced(s),
        s.len() == pow2(w.len()),
        t <= w.len(),
    ensures
        all_reduced(folded_scalars(s, w, t)),
        folded_scalars(s, w, t).len() == pow2((w.len() - t) as nat),
    decreases t,
{
    if t > 0 {
        lemma_folded_scalars_shape(s, w, (t - 1) as nat);
        lemma_fold_reduced(folded_scalars(s, w, (t - 1) as nat), w[w.len() - t]);
        vstd::arithmetic::power2::lemma_pow2_unfold((w.len() - t + 1) as nat);
    }
}

/// The halves of multiples of the generator are the multiples by the
/// halves of the factors.
pub proof fn lemma_halves_factor(g: Seq<CurvePoint>, gamma: Seq<nat>)
    requires
        represents(g, gamma),
    ensures
        represents(lower(g), lower(gamma)),
        represents(upper(g), upper(gamma)),
{
    let half = g.len() as int / 2;
    assert forall|i: int| 0 <= i < lower(g).len() implies #[trigger] lower(gamma)[i] < modulus()
        && lower(g)[i] == multiple(lower(gamma)[i]) by {
        assert(gamma[i] < modulus() && g[i] == multiple(gamma[i]));
    }
    assert forall|i: int| 0 <= i < upper(g).len() implies #[trigger] upper(gamma)[i] < modulus()
        && upper(g)[i] == multiple(upper(gamma)[i]) by {
        assert(gamma[i + half] < modulus() && g[i + half] == multiple(gamma[i + half]));
    }
}

/// A cross-term commitment over multiples of the generator is the multiple
/// by the cross-term factor.
pub proof fn lemma_cross_commitment_factor(
    a: Seq<nat>,
    g: Seq<CurvePoint>,
    gamma: Seq<nat>,
    b: Seq<nat>,
    eta: nat,
    mu: nat,
    z: nat,
    blinder: nat,
)
    requires
        group_laws(),
        represents(g, gamma),
        all_reduced(a),
        eta < modulus(),
        mu < modulus(),
        z < modulus(),
        blinder < modulus(),
    ensures
        cross_commitment(a, g, b, multiple(eta), multiple(mu), z, blinder) == multiple(
            cross_exponent(a, gamma, b, eta, mu, z, blinder),
        ),
        cross_exponent(a, gamma, b, eta, mu, z, blinder) < modulus(),
{
    let n = shorter(a.len(), g.len());
    lemma_msm_factor(a, g, gamma, n);
    let cross = fmul(z, inner_product(a, b));
    lemma_reduced(z, inner_product(a, b));
    lemma_mul_multiple(mu, cross);
    lemma_add_multiples(inner_product(a, gamma), fmul(mu, cross));
    lemma_mul_multiple(eta, blinder);
    lemma_add_multiples(fadd(inner_product(a, gamma), fmul(mu, cross)), fmul(eta, blinder));
}

/// The halves of reduced elements are reduced.
pub proof fn lemma_halves_reduced(s: Seq<nat>)
    requires
        all_reduced(s),
    ensures
        all_reduced(lower(s)),
        all_reduced(upper(s)),
{
    let half = s.len() as int / 2;
    assert forall|i: int| 0 <= i < lower(s).len() implies #[trigger] lower(s)[i] < modulus() by {
        assert(s[i] < modulus());
    }
    assert forall|i: int| 0 <= i < upper(s).len() implies #[trigger] upper(s)[i] < modulus() by {
        assert(s[i + half] < modulus());
    }
}

/// The elements of a challenge basis are reduced.
pub proof fn lemma_challenge_basis_reduced(u: Seq<nat>)
    ensures
        all_reduced(challenge_basis_spec(u)),
    decreases u.len(),
{
    if u.len() > 0 {
        let prev = challenge_basis_spec(u.drop_last());
        lemma_challenge_basis_reduced(u.drop_last());
        assert forall|i: int| 0 <= i < challenge_basis_spec(u).len() implies 
            #[trigger] challenge_basis_spec(u)[i] < modulus() by {
            if i < prev.len() {
                assert(prev[i] < modulus());
            } else {
                lemma_reduced(u.last(), prev[i - prev.len()]);
            }
        }
    }
}

/// Trailing zeros add nothing to an inner product.
pub proof fn lemma_ip_trim(c: Seq<nat>, d: Seq<nat>)
    ensures
        inner_product_upto(trim(c), d, trim(c).len()) == inner_product_upto(c, d, c.len()),
        trim(c).len() <= c.len(),
        all_reduced(c) ==> all_reduced(trim(c)),
    decreases c.len(),
{
    if c.len() > 0 && c.last() == 0 {
        let rest = c.drop_last();
        lemma_ip_trim(rest, d);
        lemma_ip_same(c, d, rest, d, rest.len());
        lemma_ip_reduced(c, d, rest.len());
        lemma_identities(d[c.len() - 1]);
        lemma_identities(inner_product_upto(c, d, rest.len()));
        vstd::arithmetic::div_mod::lemma_small_mod(
            inner_product_upto(c, d, rest.len()),
            modulus(),
        );
        if all_reduced(c) {
            assert forall|i: int| 0 <= i < rest.len() implies #[trigger] rest[i] < modulus() by {
                assert(c[i] < modulus());
            }
        }
    }
}

/// A commitment over multiples of the generator is the multiple by the
/// inner product of the coefficients with the factors of the basis, plus
/// the factor of the blinding generator times the randomness.
pub proof fn lemma_commit_factor(
    c: Seq<nat>,
    basis: Seq<CurvePoint>,
    factors: Seq<nat>,
    r: nat,
    eta: nat,
)
    requires
        group_laws(),
        represents(basis, factors),
        all_reduced(c),
        c.len() <= basis.len(),
        r < modulus(),
        eta < modulus(),
    ensures
        commit_spec(c, basis, r, multiple(eta)) == multiple(
            fadd(inner_product_upto(c, factors, c.len()), fmul(eta, r)),
        ),
        fadd(inner_product_upto(c, factors, c.len()), fmul(eta, r)) < modulus(),
{
    lemma_msm_factor(c, basis, factors, c.len());
    lemma_mul_multiple(eta, r);
    lemma_add_multiples(inner_product_upto(c, factors, c.len()), fmul(eta, r));
}

/// The last step of the recombination: taking the weighted commitments of
/// the rounds away leaves the direct inner product.
pub proof fn lemma_recombine(
    ag: nat,
    x: nat,
    d: nat,
    mu: nat,
    z: nat,
    eta: nat,
    sg: nat,
    sl: nat,
    sp: nat,
)
    requires
        ag < modulus(),
        x < modulus(),
        d < modulus(),
        mu < modulus(),
        z < modulus(),
        eta < modulus(),
        sg < modulus(),
        sl < modulus(),
        sp < modulus(),
        fadd(sl, sp) == fadd(fadd(fsub(ag, x), fmul(mu, fmul(z, d))), fmul(eta, sg)),
    ensures
        fsub(fsub(fadd(fadd(ag, fmul(eta, sg)), fmul(mu, fmul(z, d))), sl), sp) == x,
{
    lemma_red_self(ag);
    lemma_red_self(x);
    lemma_red_self(d);
    lemma_red_self(mu);
    lemma_red_self(z);
    lemma_red_self(eta);
    lemma_red_self(sg);
    lemma_red_self(sl);
    lemma_red_self(sp);
    let ag_i: int = ag as int;
    let x_i: int = x as int;
    let d_i: int = d as int;
    let mu_i: int = mu as int;
    let z_i: int = z as int;
    let eta_i: int = eta as int;
    let sg_i: int = sg as int;
    let sl_i: int = sl as int;
    let sp_i: int = sp as int;
    // What the rounds add up to, on both sides.
    lemma_red_add(sl_i, sp_i);
    lemma_red_sub(ag_i, x_i);
    lemma_red_mul(z_i, d_i);
    lemma_red_mul(mu_i, z_i * d_i);
    lemma_red_add(ag_i - x_i, mu_i * (z_i * d_i));
    lemma_red_mul(eta_i, sg_i);
    lemma_red_add((ag_i - x_i) + (mu_i * (z_i * d_i)), eta_i * sg_i);
    let rounds: int = ((ag_i - x_i) + (mu_i * (z_i * d_i))) + (eta_i * sg_i);
    // The recombination.
    lemma_red_mul(eta_i, sg_i);
    lemma_red_add(ag_i, eta_i * sg_i);
    lemma_red_mul(z_i, d_i);
    lemma_red_mul(mu_i, z_i * d_i);
    lemma_red_add(ag_i + (eta_i * sg_i), mu_i * (z_i * d_i));
    lemma_red_sub((ag_i + (eta_i * sg_i)) + (mu_i * (z_i * d_i)), sl_i);
    lemma_red_sub(((ag_i + (eta_i * sg_i)) + (mu_i * (z_i * d_i))) - sl_i, sp_i);
    let total: int = (ag_i + (eta_i * sg_i)) + (mu_i * (z_i * d_i));
    lemma_red_sub(total, sl_i + sp_i);
    lemma_red_sub(total, rounds);
    assert(total - rounds == x_i);
    assert((total - sl_i) - sp_i == total - (sl_i + sp_i));
}

/// What the rounds add to the blinding scalar is the carried blinding
/// scalar less its start.
pub proof fn lemma_blind_added(rand: nat, s_b: nat, iota: nat, sg: nat, blind: nat)
    requires
        rand < modulus(),
        s_b < modulus(),
        iota < modulus(),
        sg < modulus(),
        blind == fadd(fadd(rand, fmul(s_b, iota)), sg),
    ensures
        fsub(fsub(blind, rand), fmul(iota, s_b)) == sg,
{
    lemma_red_self(rand);
    lemma_red_self(s_b);
    lemma_red_self(iota);
    lemma_red_self(sg);
    let r_i: int = rand as int;
    let s_i: int = s_b as int;
    let i_i: int = iota as int;
    let g_i: int = sg as int;
    lemma_red_mul(s_i, i_i);
    lemma_red_add(r_i, s_i * i_i);
    lemma_red_add(r_i + (s_i * i_i), g_i);
    let carried: int = (r_i + (s_i * i_i)) + g_i;
    lemma_red_sub(carried, r_i);
    lemma_red_mul(i_i, s_i);
    lemma_red_sub(carried - r_i, i_i * s_i);
    assert(s_i * i_i == i_i * s_i) by (nonlinear_arith);
    assert((carried - r_i) - i_i * s_i == g_i);
}

/// The two sides of the opening identity, by their factors.
pub proof fn lemma_opening_algebra(
    ip: nat,
    is: nat,
    b0: nat,
    px: nat,
    eta: nat,
    rand: nat,
    sb: nat,
    iota: nat,
)
    requires
        ip < modulus(),
        is < modulus(),
        b0 < modulus(),
        px < modulus(),
        eta < modulus(),
        rand < modulus(),
        sb < modulus(),
        iota < modulus(),
    ensures
        fadd(
            fsub(fadd(ip, fmul(eta, rand)), fmul(b0, px)),
            fmul(fadd(is, fmul(eta, sb)), iota),
        ) == fadd(
            fsub(fadd(ip, fmul(iota, is)), fmul(px, b0)),
            fmul(eta, fadd(rand, fmul(iota, sb))),
        ),
{
    lemma_red_self(ip);
    lemma_red_self(is);
    lemma_red_self(b0);
    lemma_red_self(px);
    lemma_red_self(eta);
    lemma_red_self(rand);
    lemma_red_self(sb);
    lemma_red_self(iota);
    let (ipi, isi, b0i, pxi) = (ip as int, is as int, b0 as int, px as int);
    let (etai, ri, sbi, ii) = (eta as int, rand as int, sb as int, iota as int);
    // The left side.
    lemma_red_mul(etai, ri);
    lemma_red_add(ipi, etai * ri);
    lemma_red_mul(b0i, pxi);
    lemma_red_sub(ipi + etai * ri, b0i * pxi);
    lemma_red_mul(etai, sbi);
    lemma_red_add(isi, etai * sbi);
    lemma_red_mul(isi + etai * sbi, ii);
    lemma_red_add((ipi + etai * ri) - b0i * pxi, (isi + etai * sbi) * ii);
    // The right side.
    lemma_red_mul(ii, isi);
    lemma_red_add(ipi, ii * isi);
    lemma_red_mul(pxi, b0i);
    lemma_red_sub(ipi + ii * isi, pxi * b0i);
    lemma_red_mul(ii, sbi);
    lemma_red_add(ri, ii * sbi);
    lemma_red_mul(etai, ri + ii * sbi);
    lemma_red_add((ipi + ii * isi) - pxi * b0i, etai * (ri + ii * sbi));
    let es: int = etai * sbi;
    let js: int = ii * sbi;
    assert((isi + es) * ii == ii * isi + es * ii) by (nonlinear_arith);
    assert(es * ii == etai * js) by (nonlinear_arith)
        requires
            es == etai * sbi,
            js == ii * sbi,
    ;
    assert(etai * (ri + js) == etai * ri + etai * js) by (nonlinear_arith);
    assert(b0i * pxi == pxi * b0i) by (nonlinear_arith);
    assert(((ipi + etai * ri) - b0i * pxi) + (isi + etai * sbi) * ii == ((ipi + ii * isi) - pxi
        * b0i) + etai * (ri + ii * sbi));
}

/// What was taken away from equal sums is equal.
pub proof fn lemma_cancel(p: nat, a: nat, b: nat, c: nat)
    requires
        p < modulus(),
        a < modulus(),
        b < modulus(),
        c < modulus(),
        fadd(fsub(p, a), c) == fadd(fsub(p, b), c),
    ensures
        a == b,
{
    lemma_red_self(p);
    lemma_red_self(a);
    lemma_red_self(b);
    lemma_red_self(c);
    let (pi, a_i, bi, ci) = (p as int, a as int, b as int, c as int);
    lemma_red_sub(pi, a_i);
    lemma_red_add(pi - a_i, ci);
    lemma_red_sub(pi, bi);
    lemma_red_add(pi - bi, ci);
    lemma_red_sub(pi + ci, (pi - a_i) + ci);
    lemma_red_sub(pi + ci, (pi - bi) + ci);
    assert((pi + ci) - ((pi - a_i) + ci) == a_i);
    assert((pi + ci) - ((pi - bi) + ci) == bi);
}

/// A product with a difference of equal products is zero.
pub proof fn lemma_difference_of_equals(k: nat, x: nat, y: nat)
    requires
        k < modulus(),
        x < modulus(),
        y < modulus(),
        fmul(k, x) == fmul(k, y),
    ensures
        fmul(k, fsub(x, y)) == 0,
{
    lemma_red_self(k);
    lemma_red_self(x);
    lemma_red_self(y);
    let (ki, xi, yi) = (k as int, x as int, y as int);
    lemma_red_sub(xi, yi);
    lemma_red_mul(ki, xi - yi);
    lemma_red_mul(ki, xi);
    lemma_red_mul(ki, yi);
    lemma_red_sub(ki * xi, ki * yi);
    assert(ki * (xi - yi) == ki * xi - ki * yi) by (nonlinear_arith);
    lemma_red_sub(ki * xi, ki * xi);
    vstd::arithmetic::div_mod::lemma_small_mod(0, modulus());
}

/// What leaves a sum as it was is zero.
pub proof fn lemma_nothing_added(a: nat, t: nat)
    requires
        a < modulus(),
        t < modulus(),
        fadd(a, t) == a,
    ensures
        t == 0,
{
    lemma_red_self(a);
    lemma_red_self(t);
    lemma_red_add(a as int, t as int);
    lemma_red_sub(a as int + t as int, a as int);
    lemma_red_sub(a as int, a as int);
    vstd::arithmetic::div_mod::lemma_small_mod(0, modulus());
}

} // verus!
