//! What a fold does to inner products.

use vstd::arithmetic::power2::lemma_pow2_unfold;
use vstd::arithmetic::power2::pow2;
use vstd::prelude::*;
use crate::algebra::inner_product_upto;
use crate::field::fadd;
use crate::field::fmul;
use crate::field::lemma_identities;
use crate::field::lemma_red_add;
use crate::field::lemma_red_mul;
use crate::field::lemma_red_self;
use crate::field::lemma_reduced;
use crate::field::modulus;
use crate::field::red;
use crate::folding::challenge_basis_spec;
use crate::folding::fold_scalars;
use crate::folding::folded_scalars;
use crate::folding::lemma_challenge_basis_len;
use crate::folding::lower;
use crate::folding::scale_all;
use crate::folding::upper;
use crate::group::all_reduced;
use crate::sums::lemma_ip_add;
use crate::sums::lemma_ip_comm;
use crate::sums::lemma_ip_reduced;
use crate::sums::lemma_ip_same;
use crate::sums::lemma_ip_scale;
use crate::sums::lemma_ip_split;

verus! {

/// A summand times an integer that stands for one may be taken without
/// that factor.
pub proof fn lemma_red_unit(e: int, v: int, rest: int)
    requires
        red(e) == 1,
    ensures
        red(rest + e * v) == red(rest + v),
{
    lemma_red_mul(e, v);
    lemma_identities(red(v));
    vstd::arithmetic::div_mod::lemma_mod_bound(v, modulus() as int);
    vstd::arithmetic::div_mod::lemma_small_mod(red(v), modulus());
    lemma_red_add(rest, e * v);
    lemma_red_add(rest, v);
}

/// One step of the fold identity: the product of two folded elements.
proof fn lemma_fold_step(
    p: nat,
    q: nat,
    x: nat,
    y: nat,
    s: nat,
    t: nat,
    a: nat,
    b: nat,
    c: nat,
    d: nat,
)
    requires
        p < modulus(),
        q < modulus(),
        x < modulus(),
        y < modulus(),
        s < modulus(),
        t < modulus(),
        a < modulus(),
        b < modulus(),
        c < modulus(),
        d < modulus(),
        fmul(p, q) == 1,
    ensures
        fadd(
            fadd(fadd(fadd(a, b), fmul(p, c)), fmul(q, d)),
            fmul(fadd(x, fmul(p, y)), fadd(s, fmul(q, t))),
        ) == fadd(
            fadd(
                fadd(fadd(a, fmul(x, s)), fadd(b, fmul(y, t))),
                fmul(p, fadd(c, fmul(y, s))),
            ),
            fmul(q, fadd(d, fmul(x, t))),
        ),
{
    lemma_red_self(p);
    lemma_red_self(q);
    lemma_red_self(x);
    lemma_red_self(y);
    lemma_red_self(s);
    lemma_red_self(t);
    lemma_red_self(a);
    lemma_red_self(b);
    lemma_red_self(c);
    lemma_red_self(d);
    let (pi, qi, xi, yi, si, ti) = (p as int, q as int, x as int, y as int, s as int, t as int);
    let (a_i, bi, ci, di) = (a as int, b as int, c as int, d as int);
    // The left side.
    lemma_red_add(a_i, bi);
    lemma_red_mul(pi, ci);
    lemma_red_add(a_i + bi, pi * ci);
    lemma_red_mul(qi, di);
    lemma_red_add((a_i + bi) + (pi * ci), qi * di);
    let l1: int = ((a_i + bi) + (pi * ci)) + (qi * di);
    lemma_red_mul(pi, yi);
    lemma_red_add(xi, pi * yi);
    lemma_red_mul(qi, ti);
    lemma_red_add(si, qi * ti);
    lemma_red_mul(xi + (pi * yi), si + (qi * ti));
    let l2: int = (xi + (pi * yi)) * (si + (qi * ti));
    lemma_red_add(l1, l2);
    let left: int = l1 + l2;
    // The right side.
    lemma_red_mul(xi, si);
    lemma_red_add(a_i, xi * si);
    lemma_red_mul(yi, ti);
    lemma_red_add(bi, yi * ti);
    lemma_red_add(a_i + (xi * si), bi + (yi * ti));
    let r1: int = (a_i + (xi * si)) + (bi + (yi * ti));
    lemma_red_mul(yi, si);
    lemma_red_add(ci, yi * si);
    lemma_red_mul(pi, ci + (yi * si));
    lemma_red_add(r1, pi * (ci + (yi * si)));
    let r2: int = r1 + (pi * (ci + (yi * si)));
    lemma_red_mul(xi, ti);
    lemma_red_add(di, xi * ti);
    lemma_red_mul(qi, di + (xi * ti));
    lemma_red_add(r2, qi * (di + (xi * ti)));
    let right: int = r2 + (qi * (di + (xi * ti)));
    let rest: int = right - yi * ti;
    let py: int = pi * yi;
    let qt: int = qi * ti;
    assert((xi + py) * (si + qt) == xi * si + xi * qt + py * si + py * qt) by (nonlinear_arith);
    assert(xi * qt == qi * (xi * ti)) by (nonlinear_arith)
        requires
            qt == qi * ti,
    ;
    assert(py * si == pi * (yi * si)) by (nonlinear_arith)
        requires
            py == pi * yi,
    ;
    assert(py * qt == (pi * qi) * (yi * ti)) by (nonlinear_arith)
        requires
            py == pi * yi,
            qt == qi * ti,
    ;
    assert(pi * (ci + yi * si) == pi * ci + pi * (yi * si)) by (nonlinear_arith);
    assert(qi * (di + xi * ti) == qi * di + qi * (xi * ti)) by (nonlinear_arith);
    assert(left == rest + (pi * qi) * (yi * ti));
    lemma_red_mul(pi, qi);
    lemma_red_unit(pi * qi, yi * ti, rest);
}

/// Folding one vector with `p` and another with the inverse `q` of `p`
/// adds to their inner product `p` times the inner product of the upper half
/// of the first with the lower half of the second, and `q` times the inner
/// product of the lower half of the first with the upper half of the second.
pub proof fn lemma_fold_identity(a: Seq<nat>, c: Seq<nat>, p: nat, q: nat, m: nat)
    requires
        a.len() == 2 * m,
        c.len() == 2 * m,
        all_reduced(a),
        all_reduced(c),
        p < modulus(),
        q < modulus(),
        fmul(p, q) == 1,
    ensures
        inner_product_upto(fold_scalars(a, p), fold_scalars(c, q), m) == fadd(
            fadd(
                inner_product_upto(a, c, 2 * m),
                fmul(p, inner_product_upto(upper(a), lower(c), m)),
            ),
            fmul(q, inner_product_upto(lower(a), upper(c), m)),
        ),
{
    lemma_fold_partial(a, c, p, q, m, m);
    lemma_ip_split(a, c, m, m);
    lemma_ip_same(a, c, lower(a), lower(c), m);
    assert(a.subrange(m as int, (m + m) as int) =~= upper(a));
    assert(c.subrange(m as int, (m + m) as int) =~= upper(c));
}

/// The fold identity over the first `i` places.
proof fn lemma_fold_partial(a: Seq<nat>, c: Seq<nat>, p: nat, q: nat, m: nat, i: nat)
    requires
        a.len() == 2 * m,
        c.len() == 2 * m,
        all_reduced(a),
        all_reduced(c),
        p < modulus(),
        q < modulus(),
        fmul(p, q) == 1,
        i <= m,
    ensures
        inner_product_upto(fold_scalars(a, p), fold_scalars(c, q), i) == fadd(
            fadd(
                fadd(
                    inner_product_upto(lower(a), lower(c), i),
                    inner_product_upto(upper(a), upper(c), i),
                ),
                fmul(p, inner_product_upto(upper(a), lower(c), i)),
            ),
            fmul(q, inner_product_upto(lower(a), upper(c), i)),
        ),
    decreases i,
{
    if i == 0 {
        lemma_identities(0);
        lemma_identities(p);
        lemma_identities(q);
        vstd::arithmetic::div_mod::lemma_small_mod(0, modulus());
    } else {
        let j = (i - 1) as nat;
        lemma_fold_partial(a, c, p, q, m, j);
        lemma_ip_reduced(lower(a), lower(c), j);
        lemma_ip_reduced(upper(a), upper(c), j);
        lemma_ip_reduced(upper(a), lower(c), j);
        lemma_ip_reduced(lower(a), upper(c), j);
        assert(a[j as int] < modulus());
        assert(a[(j + m) as int] < modulus());
        assert(c[j as int] < modulus());
        assert(c[(j + m) as int] < modulus());
        lemma_fold_step(
            p,
            q,
            a[j as int],
            a[(j + m) as int],
            c[j as int],
            c[(j + m) as int],
            inner_product_upto(lower(a), lower(c), j),
            inner_product_upto(upper(a), upper(c), j),
            inner_product_upto(upper(a), lower(c), j),
            inner_product_upto(lower(a), upper(c), j),
        );
    }
}

/// A fold gives reduced elements, half as many.
pub proof fn lemma_fold_reduced(s: Seq<nat>, w: nat)
    ensures
        fold_scalars(s, w).len() == s.len() / 2,
        all_reduced(fold_scalars(s, w)),
{
    assert forall|i: int| 0 <= i < fold_scalars(s, w).len() implies #[trigger] fold_scalars(
        s,
        w,
    )[i] < modulus() by {
        lemma_reduced(s[i], fmul(w, s[i + s.len() / 2]));
    }
}

/// The inner product with a challenge basis is the inner product of the
/// vector folded by the last challenge with the basis of the other
/// challenges.
pub proof fn lemma_basis_fold(v: Seq<nat>, u: Seq<nat>)
    requires
        u.len() > 0,
        v.len() == pow2(u.len()),
    ensures
        inner_product_upto(v, challenge_basis_spec(u), v.len()) == inner_product_upto(
            fold_scalars(v, u.last()),
            challenge_basis_spec(u.drop_last()),
            v.len() / 2,
        ),
{
    let w = u.last();
    let prev = challenge_basis_spec(u.drop_last());
    let basis = challenge_basis_spec(u);
    lemma_challenge_basis_len(u.drop_last());
    lemma_pow2_unfold(u.len());
    let m = prev.len();
    assert(v.len() == 2 * m);
    let scaled = scale_all(prev, w);
    let folded = fold_scalars(v, w);
    lemma_ip_split(v, basis, m, m);
    lemma_ip_same(v, basis, lower(v), prev, m);
    assert(v.subrange(m as int, (m + m) as int) =~= upper(v));
    assert(basis.subrange(m as int, (m + m) as int) =~= scaled);
    // <upper(v), w * prev> = w * <upper(v), prev>
    lemma_ip_comm(upper(v), scaled, m);
    lemma_ip_scale(scaled, w, prev, upper(v), m);
    lemma_ip_comm(prev, upper(v), m);
    // <folded, prev> = <lower(v), prev> + w * <upper(v), prev>
    let weighted = scale_all(upper(v), w);
    lemma_ip_add(folded, lower(v), weighted, prev, m);
    lemma_ip_scale(weighted, w, upper(v), prev, m);
}

/// The inner product of a single reduced element with the basis of no
/// challenges is the element.
pub proof fn lemma_basis_single(v: Seq<nat>)
    requires
        v.len() == 1,
        v[0] < modulus(),
    ensures
        inner_product_upto(v, challenge_basis_spec(Seq::<nat>::empty()), 1) == v[0],
{
    let basis = challenge_basis_spec(Seq::<nat>::empty());
    assert(basis[0] == 1);
    assert(inner_product_upto(v, basis, 0) == 0);
    lemma_identities(v[0]);
    lemma_identities(fmul(v[0], 1));
    vstd::arithmetic::div_mod::lemma_small_mod(v[0], modulus());
}

/// Folding `t + 1` times is folding once by the last weight and then `t`
/// times by the weights before it.
pub proof fn lemma_folded_scalars_shift(s: Seq<nat>, w: Seq<nat>, t: nat)
    requires
        t < w.len(),
    ensures
        folded_scalars(s, w, t + 1) == folded_scalars(fold_scalars(s, w.last()), w.drop_last(), t),
    decreases t,
{
    let first = fold_scalars(s, w.last());
    let rest = w.drop_last();
    if t == 0 {
        assert(folded_scalars(s, w, 0) == s);
        assert(folded_scalars(s, w, 1) == fold_scalars(folded_scalars(s, w, 0), w[w.len() - 1]));
    } else {
        lemma_folded_scalars_shift(s, w, (t - 1) as nat);
        assert(rest[rest.len() - t] == w[w.len() - (t + 1)]);
        assert(folded_scalars(first, rest, t) == fold_scalars(
            folded_scalars(first, rest, (t - 1) as nat),
            rest[rest.len() - t],
        ));
        assert(folded_scalars(s, w, t + 1) == fold_scalars(
            folded_scalars(s, w, t),
            w[w.len() - (t + 1)],
        ));
    }
}

} // verus!
