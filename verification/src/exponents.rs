//! The rounds of a concentration in terms of field elements alone: what
//! the commitments of the rounds add up to when each point is taken by a
//! factor of the generator.

use vstd::arithmetic::power2::lemma_pow2_unfold;
use vstd::arithmetic::power2::pow2;
use vstd::prelude::*;
use crate::algebra::all_invertible;
use crate::algebra::inner_product;
use crate::algebra::inner_product_upto;
use crate::algebra::inverses;
use crate::field::fadd;
use crate::field::finv;
use crate::field::fmul;
use crate::field::fsub;
use crate::field::is_inverse;
use crate::field::lemma_fadd_assoc;
use crate::field::lemma_fmul_comm;
use crate::field::lemma_identities;
use crate::field::lemma_red_add;
use crate::field::lemma_red_mul;
use crate::field::lemma_red_self;
use crate::field::lemma_red_sub;
use crate::field::lemma_reduced;
use crate::field::modulus;
use crate::field::red;
use crate::fold_sums::lemma_basis_fold;
use crate::fold_sums::lemma_basis_single;
use crate::fold_sums::lemma_fold_identity;
use crate::fold_sums::lemma_fold_reduced;
use crate::fold_sums::lemma_folded_scalars_shift;
use crate::folding::blind_after;
use crate::folding::challenge_basis_spec;
use crate::folding::fold_scalars;
use crate::folding::folded_scalars;
use crate::folding::lower;
use crate::folding::upper;
use crate::group::all_reduced;
use crate::sums::lemma_ip_comm;
use crate::sums::lemma_ip_reduced;
use crate::sums::lemma_ip_same;

verus! {

/// The factor of a cross-term commitment, where `gamma` holds the factors
/// of the basis, `eta` that of the blinding generator and `mu` that of the
/// cross-term generator.
pub open spec fn cross_exponent(
    a: Seq<nat>,
    gamma: Seq<nat>,
    b: Seq<nat>,
    eta: nat,
    mu: nat,
    z: nat,
    blinder: nat,
) -> nat {
    fadd(
        fadd(inner_product(a, gamma), fmul(mu, fmul(z, inner_product(a, b)))),
        fmul(eta, blinder),
    )
}

/// The factor of the commitment `L[j]`.
pub open spec fn left_exponent(
    a: Seq<nat>,
    b: Seq<nat>,
    gamma: Seq<nat>,
    u: Seq<nat>,
    eta: nat,
    mu: nat,
    z: nat,
    l: Seq<nat>,
    j: int,
) -> nat {
    let t = (u.len() - 1 - j) as nat;
    cross_exponent(
        upper(folded_scalars(a, inverses(u), t)),
        lower(folded_scalars(gamma, u, t)),
        lower(folded_scalars(b, u, t)),
        eta,
        mu,
        z,
        l[j],
    )
}

/// The factor of the commitment `R[j]`.
pub open spec fn right_exponent(
    a: Seq<nat>,
    b: Seq<nat>,
    gamma: Seq<nat>,
    u: Seq<nat>,
    eta: nat,
    mu: nat,
    z: nat,
    r: Seq<nat>,
    j: int,
) -> nat {
    let t = (u.len() - 1 - j) as nat;
    cross_exponent(
        lower(folded_scalars(a, inverses(u), t)),
        upper(folded_scalars(gamma, u, t)),
        upper(folded_scalars(b, u, t)),
        eta,
        mu,
        z,
        r[j],
    )
}

/// The factors of all the commitments `L`.
pub open spec fn left_exponents(
    a: Seq<nat>,
    b: Seq<nat>,
    gamma: Seq<nat>,
    u: Seq<nat>,
    eta: nat,
    mu: nat,
    z: nat,
    l: Seq<nat>,
) -> Seq<nat> {
    Seq::new(u.len(), |j: int| left_exponent(a, b, gamma, u, eta, mu, z, l, j))
}

/// The factors of all the commitments `R`.
pub open spec fn right_exponents(
    a: Seq<nat>,
    b: Seq<nat>,
    gamma: Seq<nat>,
    u: Seq<nat>,
    eta: nat,
    mu: nat,
    z: nat,
    r: Seq<nat>,
) -> Seq<nat> {
    Seq::new(u.len(), |j: int| right_exponent(a, b, gamma, u, eta, mu, z, r, j))
}

/// The carried blinding scalar is its start plus what the rounds add.
pub proof fn lemma_blind_base(base: nat, l: Seq<nat>, r: Seq<nat>, u: Seq<nat>, t: nat)
    requires
        base < modulus(),
    ensures
        blind_after(base, l, r, u, t) == fadd(base, blind_after(0, l, r, u, t)),
        blind_after(base, l, r, u, t) < modulus(),
    decreases t,
{
    if t == 0 {
        lemma_identities(base);
        vstd::arithmetic::div_mod::lemma_small_mod(base, modulus());
    } else {
        let j = u.len() - t;
        let term = fadd(fmul(l[j], finv(u[j])), fmul(r[j], u[j]));
        lemma_blind_base(base, l, r, u, (t - 1) as nat);
        lemma_fadd_assoc(base, blind_after(0, l, r, u, (t - 1) as nat), term);
        lemma_reduced(blind_after(base, l, r, u, (t - 1) as nat), term);
    }
}

/// What the rounds add to the blinding scalar is what the highest round
/// adds plus what the rounds below it add.
pub proof fn lemma_blind_shift(base: nat, l: Seq<nat>, r: Seq<nat>, u: Seq<nat>, t: nat)
    requires
        1 <= t <= u.len(),
        l.len() == u.len(),
        r.len() == u.len(),
    ensures
        blind_after(base, l, r, u, t) == blind_after(
            fadd(
                base,
                fadd(fmul(l.last(), finv(u.last())), fmul(r.last(), u.last())),
            ),
            l.drop_last(),
            r.drop_last(),
            u.drop_last(),
            (t - 1) as nat,
        ),
    decreases t,
{
    let k = u.len();
    let top = fadd(fmul(l.last(), finv(u.last())), fmul(r.last(), u.last()));
    if t == 1 {
        assert(blind_after(base, l, r, u, 0) == base);
        assert(blind_after(base, l, r, u, 1) == fadd(
            blind_after(base, l, r, u, 0),
            fadd(fmul(l[k - 1], finv(u[k - 1])), fmul(r[k - 1], u[k - 1])),
        ));
    } else {
        lemma_blind_shift(base, l, r, u, (t - 1) as nat);
        let j = k - t;
        assert(u.drop_last()[j] == u[j]);
        assert(l.drop_last()[j] == l[j]);
        assert(r.drop_last()[j] == r[j]);
        assert(blind_after(base, l, r, u, t) == fadd(
            blind_after(base, l, r, u, (t - 1) as nat),
            fadd(fmul(l[j], finv(u[j])), fmul(r[j], u[j])),
        ));
        assert(blind_after(
            fadd(base, top),
            l.drop_last(),
            r.drop_last(),
            u.drop_last(),
            (t - 1) as nat,
        ) == fadd(
            blind_after(
                fadd(base, top),
                l.drop_last(),
                r.drop_last(),
                u.drop_last(),
                (t - 2) as nat,
            ),
            fadd(
                fmul(l.drop_last()[j], finv(u.drop_last()[j])),
                fmul(r.drop_last()[j], u.drop_last()[j]),
            ),
        ));
    }
}

/// The inverses of all but the last element are all but the last inverse.
pub proof fn lemma_inverses_drop_last(u: Seq<nat>)
    requires
        u.len() > 0,
    ensures
        inverses(u).drop_last() == inverses(u.drop_last()),
        inverses(u).last() == finv(u.last()),
        inverses(u).len() == u.len(),
{
    assert(inverses(u).drop_last() =~= inverses(u.drop_last()));
}

/// The inverses of invertible elements are reduced.
pub proof fn lemma_inverses_reduced(u: Seq<nat>)
    requires
        all_invertible(u),
    ensures
        all_reduced(inverses(u)),
{
    assert forall|i: int| 0 <= i < inverses(u).len() implies #[trigger] inverses(u)[i]
        < modulus() by {
        assert(is_inverse(u[i], finv(u[i])));
    }
}

/// The step of the sum over the rounds: given what the rounds below the
/// highest add up to, what all of them add up to.
proof fn lemma_round_algebra(
    ag: nat,
    ab: nat,
    x: nat,
    y: nat,
    gl: nat,
    gr: nat,
    cl: nat,
    cr: nat,
    lt: nat,
    rt: nat,
    w: nat,
    wi: nat,
    mu: nat,
    z: nat,
    eta: nat,
    sg: nat,
    sl: nat,
    sp: nat,
)
    requires
        ag < modulus(),
        ab < modulus(),
        x < modulus(),
        y < modulus(),
        gl < modulus(),
        gr < modulus(),
        cl < modulus(),
        cr < modulus(),
        lt < modulus(),
        rt < modulus(),
        w < modulus(),
        wi < modulus(),
        mu < modulus(),
        z < modulus(),
        eta < modulus(),
        sg < modulus(),
        sl < modulus(),
        sp < modulus(),
        fadd(sl, sp) == fadd(
            fadd(
                fsub(ag, fadd(fadd(x, fmul(wi, gl)), fmul(w, gr))),
                fmul(mu, fmul(z, fsub(ab, fadd(fadd(y, fmul(wi, cl)), fmul(w, cr))))),
            ),
            fmul(eta, sg),
        ),
    ensures
        fadd(
            fadd(sl, fmul(wi, fadd(fadd(gl, fmul(mu, fmul(z, cl))), fmul(eta, lt)))),
            fadd(sp, fmul(w, fadd(fadd(gr, fmul(mu, fmul(z, cr))), fmul(eta, rt)))),
        ) == fadd(
            fadd(fsub(ag, x), fmul(mu, fmul(z, fsub(ab, y)))),
            fmul(eta, fadd(fadd(fmul(lt, wi), fmul(rt, w)), sg)),
        ),
{
    lemma_red_self(ag);
    lemma_red_self(ab);
    lemma_red_self(x);
    lemma_red_self(y);
    lemma_red_self(gl);
    lemma_red_self(gr);
    lemma_red_self(cl);
    lemma_red_self(cr);
    lemma_red_self(lt);
    lemma_red_self(rt);
    lemma_red_self(w);
    lemma_red_self(wi);
    lemma_red_self(mu);
    lemma_red_self(z);
    lemma_red_self(eta);
    lemma_red_self(sg);
    lemma_red_self(sl);
    lemma_red_self(sp);
    let ag_i: int = ag as int;
    let ab_i: int = ab as int;
    let x_i: int = x as int;
    let y_i: int = y as int;
    let gl_i: int = gl as int;
    let gr_i: int = gr as int;
    let cl_i: int = cl as int;
    let cr_i: int = cr as int;
    let lt_i: int = lt as int;
    let rt_i: int = rt as int;
    let w_i: int = w as int;
    let wi_i: int = wi as int;
    let mu_i: int = mu as int;
    let z_i: int = z as int;
    let eta_i: int = eta as int;
    let sg_i: int = sg as int;
    let sl_i: int = sl as int;
    let sp_i: int = sp as int;
    // What the rounds below the highest add up to, on both sides.
    lemma_red_add(sl_i, sp_i);
    let paired: int = sl_i + sp_i;
    lemma_red_mul(wi_i, gl_i);
    lemma_red_add(x_i, wi_i * gl_i);
    lemma_red_mul(w_i, gr_i);
    lemma_red_add(x_i + (wi_i * gl_i), w_i * gr_i);
    let b1: int = (x_i + (wi_i * gl_i)) + (w_i * gr_i);
    lemma_red_sub(ag_i, b1);
    lemma_red_mul(wi_i, cl_i);
    lemma_red_add(y_i, wi_i * cl_i);
    lemma_red_mul(w_i, cr_i);
    lemma_red_add(y_i + (wi_i * cl_i), w_i * cr_i);
    let b2: int = (y_i + (wi_i * cl_i)) + (w_i * cr_i);
    lemma_red_sub(ab_i, b2);
    lemma_red_mul(z_i, ab_i - b2);
    lemma_red_mul(mu_i, z_i * (ab_i - b2));
    let b3: int = mu_i * (z_i * (ab_i - b2));
    lemma_red_add(ag_i - b1, b3);
    lemma_red_mul(eta_i, sg_i);
    lemma_red_add((ag_i - b1) + b3, eta_i * sg_i);
    let below: int = ((ag_i - b1) + b3) + (eta_i * sg_i);
    assert(red(paired) == red(below));
    // All the rounds.
    lemma_red_mul(z_i, cl_i);
    lemma_red_mul(mu_i, z_i * cl_i);
    lemma_red_add(gl_i, mu_i * (z_i * cl_i));
    let t1: int = gl_i + (mu_i * (z_i * cl_i));
    lemma_red_mul(eta_i, lt_i);
    lemma_red_add(t1, eta_i * lt_i);
    lemma_red_mul(wi_i, t1 + (eta_i * lt_i));
    let t2: int = wi_i * (t1 + (eta_i * lt_i));
    lemma_red_add(sl_i, t2);
    lemma_red_mul(z_i, cr_i);
    lemma_red_mul(mu_i, z_i * cr_i);
    lemma_red_add(gr_i, mu_i * (z_i * cr_i));
    let t3: int = gr_i + (mu_i * (z_i * cr_i));
    lemma_red_mul(eta_i, rt_i);
    lemma_red_add(t3, eta_i * rt_i);
    lemma_red_mul(w_i, t3 + (eta_i * rt_i));
    let t4: int = w_i * (t3 + (eta_i * rt_i));
    lemma_red_add(sp_i, t4);
    lemma_red_add(sl_i + t2, sp_i + t4);
    let total: int = (sl_i + t2) + (sp_i + t4);
    // What they are to add up to.
    lemma_red_sub(ag_i, x_i);
    lemma_red_sub(ab_i, y_i);
    lemma_red_mul(z_i, ab_i - y_i);
    lemma_red_mul(mu_i, z_i * (ab_i - y_i));
    let a1: int = mu_i * (z_i * (ab_i - y_i));
    lemma_red_add(ag_i - x_i, a1);
    lemma_red_mul(lt_i, wi_i);
    lemma_red_mul(rt_i, w_i);
    lemma_red_add(lt_i * wi_i, rt_i * w_i);
    let a2: int = (lt_i * wi_i) + (rt_i * w_i);
    lemma_red_add(a2, sg_i);
    lemma_red_mul(eta_i, a2 + sg_i);
    lemma_red_add((ag_i - x_i) + a1, eta_i * (a2 + sg_i));
    let all: int = ((ag_i - x_i) + a1) + (eta_i * (a2 + sg_i));
    let top: int = total - paired;
    lemma_red_add(paired, top);
    lemma_red_add(below, top);
    assert(red(total) == red(below + top));

    let ml: int = mu_i * (z_i * (wi_i * cl_i));
    let mr: int = mu_i * (z_i * (w_i * cr_i));
    let m_l: int = mu_i * (z_i * cl_i);
    let e_l: int = eta_i * lt_i;
    assert(wi_i * ((gl_i + m_l) + e_l) == wi_i * gl_i + wi_i * m_l + wi_i * e_l)
        by (nonlinear_arith);
    assert(wi_i * m_l == ml) by (nonlinear_arith)
        requires
            m_l == mu_i * (z_i * cl_i),
            ml == mu_i * (z_i * (wi_i * cl_i)),
    ;
    assert(wi_i * e_l == eta_i * (lt_i * wi_i)) by (nonlinear_arith)
        requires
            e_l == eta_i * lt_i,
    ;
    let m_r: int = mu_i * (z_i * cr_i);
    let e_r: int = eta_i * rt_i;
    assert(w_i * ((gr_i + m_r) + e_r) == w_i * gr_i + w_i * m_r + w_i * e_r) by (nonlinear_arith);
    assert(w_i * m_r == mr) by (nonlinear_arith)
        requires
            m_r == mu_i * (z_i * cr_i),
            mr == mu_i * (z_i * (w_i * cr_i)),
    ;
    assert(w_i * e_r == eta_i * (rt_i * w_i)) by (nonlinear_arith)
        requires
            e_r == eta_i * rt_i,
    ;
    let c_l: int = wi_i * cl_i;
    let c_r: int = w_i * cr_i;
    assert(mu_i * (z_i * (ab_i - ((y_i + c_l) + c_r))) == mu_i * (z_i * (ab_i - y_i)) - mu_i * (
    z_i * c_l) - mu_i * (z_i * c_r)) by (nonlinear_arith);
    assert(eta_i * (((lt_i * wi_i) + (rt_i * w_i)) + sg_i) == eta_i * (lt_i * wi_i) + eta_i * (
    rt_i * w_i) + eta_i * sg_i) by (nonlinear_arith);
    assert(below + top == all);
}

/// What the commitments of the rounds add up to: `L[j]` weighted by the
/// inverse of the challenge `u[j]`, `R[j]` by the challenge itself.
pub open spec fn rounds_total(
    a: Seq<nat>,
    b: Seq<nat>,
    gamma: Seq<nat>,
    u: Seq<nat>,
    eta: nat,
    mu: nat,
    z: nat,
    l: Seq<nat>,
    r: Seq<nat>,
) -> nat {
    fadd(
        inner_product_upto(inverses(u), left_exponents(a, b, gamma, u, eta, mu, z, l), u.len()),
        inner_product_upto(u, right_exponents(a, b, gamma, u, eta, mu, z, r), u.len()),
    )
}

/// What the rounds are to add up to: the compressed product less the
/// direct one, the cross term, and what the rounds add to the blinding
/// scalar.
pub open spec fn rounds_target(
    a: Seq<nat>,
    b: Seq<nat>,
    gamma: Seq<nat>,
    u: Seq<nat>,
    eta: nat,
    mu: nat,
    z: nat,
    l: Seq<nat>,
    r: Seq<nat>,
) -> nat {
    let n = a.len();
    let a_res = inner_product_upto(a, challenge_basis_spec(inverses(u)), n);
    let g_res = inner_product_upto(challenge_basis_spec(u), gamma, n);
    let b_res = inner_product_upto(b, challenge_basis_spec(u), n);
    fadd(
        fadd(
            fsub(fmul(a_res, g_res), inner_product_upto(a, gamma, n)),
            fmul(mu, fmul(z, fsub(fmul(a_res, b_res), inner_product_upto(a, b, n)))),
        ),
        fmul(eta, blind_after(0, l, r, u, u.len())),
    )
}

/// The inputs of a concentration, taken by their factors, are of the
/// right lengths and reduced, and each challenge has its inverse.
pub open spec fn rounds_valid(
    a: Seq<nat>,
    b: Seq<nat>,
    gamma: Seq<nat>,
    u: Seq<nat>,
    eta: nat,
    mu: nat,
    z: nat,
    l: Seq<nat>,
    r: Seq<nat>,
) -> bool {
    &&& a.len() == pow2(u.len())
    &&& b.len() == a.len()
    &&& gamma.len() == a.len()
    &&& l.len() == u.len()
    &&& r.len() == u.len()
    &&& all_reduced(a)
    &&& all_reduced(b)
    &&& all_reduced(gamma)
    &&& all_reduced(u)
    &&& all_reduced(l)
    &&& all_reduced(r)
    &&& eta < modulus()
    &&& mu < modulus()
    &&& z < modulus()
    &&& all_invertible(u)
}

/// With a single element and no challenge, nothing adds up to nothing.
proof fn lemma_rounds_base(
    a: Seq<nat>,
    b: Seq<nat>,
    gamma: Seq<nat>,
    u: Seq<nat>,
    eta: nat,
    mu: nat,
    z: nat,
    l: Seq<nat>,
    r: Seq<nat>,
)
    requires
        rounds_valid(a, b, gamma, u, eta, mu, z, l, r),
        u.len() == 0,
    ensures
        rounds_total(a, b, gamma, u, eta, mu, z, l, r) == rounds_target(
            a,
            b,
            gamma,
            u,
            eta,
            mu,
            z,
            l,
            r,
        ),
{
    let basis = challenge_basis_spec(u);
    let a_res = inner_product_upto(a, challenge_basis_spec(inverses(u)), 1);
    let g_res = inner_product_upto(basis, gamma, 1);
    let b_res = inner_product_upto(b, basis, 1);
    let x = inner_product_upto(a, gamma, 1);
    let y = inner_product_upto(a, b, 1);
    vstd::arithmetic::power2::lemma2_to64();
    assert(inverses(u) =~= Seq::<nat>::empty());
    assert(u =~= Seq::<nat>::empty());
    lemma_basis_single(a);
    lemma_basis_single(b);
    lemma_basis_single(gamma);
    lemma_ip_comm(basis, gamma, 1);
    assert(inner_product_upto(a, gamma, 0) == 0);
    assert(inner_product_upto(a, b, 0) == 0);
    lemma_identities(fmul(a[0], gamma[0]));
    lemma_identities(fmul(a[0], b[0]));
    lemma_reduced(a[0], gamma[0]);
    lemma_reduced(a[0], b[0]);
    vstd::arithmetic::div_mod::lemma_small_mod(fmul(a[0], gamma[0]), modulus());
    vstd::arithmetic::div_mod::lemma_small_mod(fmul(a[0], b[0]), modulus());
    vstd::arithmetic::div_mod::lemma_small_mod(0, modulus());
    lemma_identities(z);
    lemma_identities(mu);
    lemma_identities(eta);
    assert(x == fmul(a[0], gamma[0]));
    assert(y == fmul(a[0], b[0]));
    assert(fsub(fmul(a_res, g_res), x) == 0);
    assert(fsub(fmul(a_res, b_res), y) == 0);
    assert(blind_after(0, l, r, u, 0) == 0);
}

/// The inputs of the rounds below the highest: the vectors folded once,
/// and all but the last challenge and blinding scalars.
pub open spec fn rounds_below_valid(
    a: Seq<nat>,
    b: Seq<nat>,
    gamma: Seq<nat>,
    u: Seq<nat>,
    eta: nat,
    mu: nat,
    z: nat,
    l: Seq<nat>,
    r: Seq<nat>,
) -> bool {
    rounds_valid(
        fold_scalars(a, finv(u.last())),
        fold_scalars(b, u.last()),
        fold_scalars(gamma, u.last()),
        u.drop_last(),
        eta,
        mu,
        z,
        l.drop_last(),
        r.drop_last(),
    )
}

/// After the highest round the inputs are again those of a concentration.
proof fn lemma_rounds_below_valid(
    a: Seq<nat>,
    b: Seq<nat>,
    gamma: Seq<nat>,
    u: Seq<nat>,
    eta: nat,
    mu: nat,
    z: nat,
    l: Seq<nat>,
    r: Seq<nat>,
)
    requires
        rounds_valid(a, b, gamma, u, eta, mu, z, l, r),
        u.len() > 0,
    ensures
        rounds_below_valid(a, b, gamma, u, eta, mu, z, l, r),
        a.len() == 2 * (a.len() / 2),
        is_inverse(u.last(), finv(u.last())),
{
    let w = u.last();
    let wi = finv(w);
    let u1 = u.drop_last();
    lemma_pow2_unfold(u.len());
    assert(is_inverse(w, wi));
    lemma_fold_reduced(a, wi);
    lemma_fold_reduced(b, w);
    lemma_fold_reduced(gamma, w);
    assert forall|j: int| 0 <= j < u1.len() implies is_inverse(#[trigger] u1[j], finv(u1[j]))
        && u1[j] < modulus() by {
        assert(u1[j] == u[j]);
    }
    assert forall|j: int| 0 <= j < u1.len() implies #[trigger] l.drop_last()[j] < modulus() by {
        assert(l.drop_last()[j] == l[j]);
    }
    assert forall|j: int| 0 <= j < u1.len() implies #[trigger] r.drop_last()[j] < modulus() by {
        assert(r.drop_last()[j] == r[j]);
    }
}

/// Folding once leaves the three compressed elements as they were.
proof fn lemma_rounds_compressed(a: Seq<nat>, b: Seq<nat>, gamma: Seq<nat>, u: Seq<nat>)
    requires
        u.len() > 0,
        a.len() == pow2(u.len()),
        b.len() == a.len(),
        gamma.len() == a.len(),
    ensures
        inner_product_upto(a, challenge_basis_spec(inverses(u)), a.len()) == inner_product_upto(
            fold_scalars(a, finv(u.last())),
            challenge_basis_spec(inverses(u.drop_last())),
            a.len() / 2,
        ),
        inner_product_upto(b, challenge_basis_spec(u), a.len()) == inner_product_upto(
            fold_scalars(b, u.last()),
            challenge_basis_spec(u.drop_last()),
            a.len() / 2,
        ),
        inner_product_upto(challenge_basis_spec(u), gamma, a.len()) == inner_product_upto(
            challenge_basis_spec(u.drop_last()),
            fold_scalars(gamma, u.last()),
            a.len() / 2,
        ),
{
    let n = a.len();
    lemma_inverses_drop_last(u);
    lemma_basis_fold(a, inverses(u));
    lemma_basis_fold(b, u);
    lemma_ip_comm(challenge_basis_spec(u), gamma, n);
    lemma_basis_fold(gamma, u);
    lemma_ip_comm(fold_scalars(gamma, u.last()), challenge_basis_spec(u.drop_last()), n / 2);
}

/// The commitments below the highest round are those of the vectors
/// folded once.
proof fn lemma_rounds_below(
    a: Seq<nat>,
    b: Seq<nat>,
    gamma: Seq<nat>,
    u: Seq<nat>,
    eta: nat,
    mu: nat,
    z: nat,
    l: Seq<nat>,
    r: Seq<nat>,
)
    requires
        u.len() > 0,
        l.len() == u.len(),
        r.len() == u.len(),
    ensures
        inner_product_upto(
            inverses(u),
            left_exponents(a, b, gamma, u, eta, mu, z, l),
            (u.len() - 1) as nat,
        ) == inner_product_upto(
            inverses(u.drop_last()),
            left_exponents(
                fold_scalars(a, finv(u.last())),
                fold_scalars(b, u.last()),
                fold_scalars(gamma, u.last()),
                u.drop_last(),
                eta,
                mu,
                z,
                l.drop_last(),
            ),
            (u.len() - 1) as nat,
        ),
        inner_product_upto(
            u,
            right_exponents(a, b, gamma, u, eta, mu, z, r),
            (u.len() - 1) as nat,
        ) == inner_product_upto(
            u.drop_last(),
            right_exponents(
                fold_scalars(a, finv(u.last())),
                fold_scalars(b, u.last()),
                fold_scalars(gamma, u.last()),
                u.drop_last(),
                eta,
                mu,
                z,
                r.drop_last(),
            ),
            (u.len() - 1) as nat,
        ),
{
    let k = u.len();
    let w = u.last();
    let wi = finv(w);
    let u1 = u.drop_last();
    let l1 = l.drop_last();
    let r1 = r.drop_last();
    let a1 = fold_scalars(a, wi);
    let b1 = fold_scalars(b, w);
    let gamma1 = fold_scalars(gamma, w);
    let lefts = left_exponents(a, b, gamma, u, eta, mu, z, l);
    let rights = right_exponents(a, b, gamma, u, eta, mu, z, r);
    let lefts1 = left_exponents(a1, b1, gamma1, u1, eta, mu, z, l1);
    let rights1 = right_exponents(a1, b1, gamma1, u1, eta, mu, z, r1);
    lemma_inverses_drop_last(u);
    assert forall|j: int| 0 <= j < k - 1 implies inverses(u)[j] == inverses(u1)[j] && lefts[j]
        == lefts1[j] && u[j] == u1[j] && rights[j] == rights1[j] by {
        let t = (k - 1 - j) as nat;
        lemma_folded_scalars_shift(a, inverses(u), (t - 1) as nat);
        lemma_folded_scalars_shift(b, u, (t - 1) as nat);
        lemma_folded_scalars_shift(gamma, u, (t - 1) as nat);
        assert(l1[j] == l[j]);
        assert(r1[j] == r[j]);
    }
    lemma_ip_same(inverses(u), lefts, inverses(u1), lefts1, (k - 1) as nat);
    lemma_ip_same(u, rights, u1, rights1, (k - 1) as nat);
}

/// The commitments of the highest round are made from the vectors as they
/// are given.
proof fn lemma_rounds_top(
    a: Seq<nat>,
    b: Seq<nat>,
    gamma: Seq<nat>,
    u: Seq<nat>,
    eta: nat,
    mu: nat,
    z: nat,
    l: Seq<nat>,
    r: Seq<nat>,
)
    requires
        u.len() > 0,
        a.len() == 2 * (a.len() / 2),
        b.len() == a.len(),
        gamma.len() == a.len(),
        l.len() == u.len(),
        r.len() == u.len(),
    ensures
        left_exponents(a, b, gamma, u, eta, mu, z, l)[u.len() - 1] == fadd(
            fadd(
                inner_product_upto(upper(a), lower(gamma), a.len() / 2),
                fmul(mu, fmul(z, inner_product_upto(upper(a), lower(b), a.len() / 2))),
            ),
            fmul(eta, l.last()),
        ),
        right_exponents(a, b, gamma, u, eta, mu, z, r)[u.len() - 1] == fadd(
            fadd(
                inner_product_upto(lower(a), upper(gamma), a.len() / 2),
                fmul(mu, fmul(z, inner_product_upto(lower(a), upper(b), a.len() / 2))),
            ),
            fmul(eta, r.last()),
        ),
{
    assert(folded_scalars(a, inverses(u), 0) == a);
    assert(folded_scalars(b, u, 0) == b);
    assert(folded_scalars(gamma, u, 0) == gamma);
}

/// What all the rounds add to the blinding scalar is what the highest
/// round adds plus what the rounds below it add.
proof fn lemma_rounds_blind(l: Seq<nat>, r: Seq<nat>, u: Seq<nat>)
    requires
        u.len() > 0,
        l.len() == u.len(),
        r.len() == u.len(),
    ensures
        blind_after(0, l, r, u, u.len()) == fadd(
            fadd(fmul(l.last(), finv(u.last())), fmul(r.last(), u.last())),
            blind_after(0, l.drop_last(), r.drop_last(), u.drop_last(), (u.len() - 1) as nat),
        ),
        blind_after(0, l.drop_last(), r.drop_last(), u.drop_last(), (u.len() - 1) as nat)
            < modulus(),
{
    let k = u.len();
    let top = fadd(fmul(l.last(), finv(u.last())), fmul(r.last(), u.last()));
    lemma_blind_shift(0, l, r, u, k);
    lemma_reduced(fmul(l.last(), finv(u.last())), fmul(r.last(), u.last()));
    lemma_identities(top);
    vstd::arithmetic::div_mod::lemma_small_mod(top, modulus());
    lemma_blind_base(top, l.drop_last(), r.drop_last(), u.drop_last(), (k - 1) as nat);
    lemma_blind_base(0, l.drop_last(), r.drop_last(), u.drop_last(), (k - 1) as nat);
}

/// The weighted commitments of the rounds add up to the compressed product
/// less the direct one, plus the cross term, plus what the rounds add to the
/// blinding scalar.
pub proof fn lemma_rounds_sum(
    a: Seq<nat>,
    b: Seq<nat>,
    gamma: Seq<nat>,
    u: Seq<nat>,
    eta: nat,
    mu: nat,
    z: nat,
    l: Seq<nat>,
    r: Seq<nat>,
)
    requires
        rounds_valid(a, b, gamma, u, eta, mu, z, l, r),
    ensures
        rounds_total(a, b, gamma, u, eta, mu, z, l, r) == rounds_target(
            a,
            b,
            gamma,
            u,
            eta,
            mu,
            z,
            l,
            r,
        ),
    decreases u.len(),
{
    let k = u.len();
    let n = a.len();
    if k == 0 {
        lemma_rounds_base(a, b, gamma, u, eta, mu, z, l, r);
    } else {
        let w = u.last();
        let wi = finv(w);
        let u1 = u.drop_last();
        let l1 = l.drop_last();
        let r1 = r.drop_last();
        let a1 = fold_scalars(a, wi);
        let b1 = fold_scalars(b, w);
        let gamma1 = fold_scalars(gamma, w);
        let m = (n / 2) as nat;
        lemma_rounds_below_valid(a, b, gamma, u, eta, mu, z, l, r);
        lemma_rounds_sum(a1, b1, gamma1, u1, eta, mu, z, l1, r1);
        lemma_rounds_compressed(a, b, gamma, u);
        lemma_rounds_below(a, b, gamma, u, eta, mu, z, l, r);
        lemma_rounds_top(a, b, gamma, u, eta, mu, z, l, r);
        lemma_rounds_blind(l, r, u);
        lemma_fmul_comm(w, wi);
        lemma_fold_identity(a, gamma, wi, w, m);
        lemma_fold_identity(a, b, wi, w, m);

        let a_res = inner_product_upto(a, challenge_basis_spec(inverses(u)), n);
        let g_res = inner_product_upto(challenge_basis_spec(u), gamma, n);
        let b_res = inner_product_upto(b, challenge_basis_spec(u), n);
        let x = inner_product_upto(a, gamma, n);
        let y = inner_product_upto(a, b, n);
        let gl = inner_product_upto(upper(a), lower(gamma), m);
        let gr = inner_product_upto(lower(a), upper(gamma), m);
        let cl = inner_product_upto(upper(a), lower(b), m);
        let cr = inner_product_upto(lower(a), upper(b), m);
        let lefts1 = left_exponents(a1, b1, gamma1, u1, eta, mu, z, l1);
        let rights1 = right_exponents(a1, b1, gamma1, u1, eta, mu, z, r1);
        let sl = inner_product_upto(inverses(u1), lefts1, (k - 1) as nat);
        let sp = inner_product_upto(u1, rights1, (k - 1) as nat);
        let sg = blind_after(0, l1, r1, u1, (k - 1) as nat);
        lemma_ip_reduced(upper(a), lower(gamma), m);
        lemma_ip_reduced(lower(a), upper(gamma), m);
        lemma_ip_reduced(upper(a), lower(b), m);
        lemma_ip_reduced(lower(a), upper(b), m);
        lemma_ip_reduced(a, gamma, n);
        lemma_ip_reduced(a, b, n);
        lemma_ip_reduced(inverses(u1), lefts1, (k - 1) as nat);
        lemma_ip_reduced(u1, rights1, (k - 1) as nat);
        lemma_reduced(a_res, g_res);
        lemma_reduced(a_res, b_res);
        lemma_inverses_drop_last(u);
        assert(l.last() < modulus());
        assert(r.last() < modulus());
        assert(w < modulus());
        lemma_round_algebra(
            fmul(a_res, g_res),
            fmul(a_res, b_res),
            x,
            y,
            gl,
            gr,
            cl,
            cr,
            l.last(),
            r.last(),
            w,
            wi,
            mu,
            z,
            eta,
            sg,
            sl,
            sp,
        );
    }
}

} // verus!
