//! How inner products over the scalar field go with sums, multiples and
//! halves of their arguments.

use vstd::prelude::*;
use crate::algebra::inner_product_upto;
use crate::field::fadd;
use crate::field::fmul;
use crate::field::fsub;
use crate::field::lemma_fadd_swap;
use crate::field::lemma_fmul_comm;
use crate::field::lemma_fmul_distributes;
use crate::field::lemma_fmul_distributes_right;
use crate::field::lemma_identities;
use crate::field::lemma_red_add;
use crate::field::lemma_red_mul;
use crate::field::lemma_red_self;
use crate::field::lemma_red_sub;
use crate::field::lemma_reduced;
use crate::field::modulus;

verus! {

/// An inner product is reduced.
pub proof fn lemma_ip_reduced(a: Seq<nat>, b: Seq<nat>, n: nat)
    ensures
        inner_product_upto(a, b, n) < modulus(),
{
    if n > 0 {
        lemma_reduced(inner_product_upto(a, b, (n - 1) as nat), fmul(a[n - 1], b[n - 1]));
    }
}

/// An inner product depends on the elements that take part only.
pub proof fn lemma_ip_same(a: Seq<nat>, b: Seq<nat>, c: Seq<nat>, d: Seq<nat>, n: nat)
    requires
        forall|i: int| 0 <= i < n ==> a[i] == c[i] && b[i] == d[i],
    ensures
        inner_product_upto(a, b, n) == inner_product_upto(c, d, n),
    decreases n,
{
    if n > 0 {
        lemma_ip_same(a, b, c, d, (n - 1) as nat);
    }
}

/// An inner product does not depend on the order of its arguments.
pub proof fn lemma_ip_comm(a: Seq<nat>, b: Seq<nat>, n: nat)
    ensures
        inner_product_upto(a, b, n) == inner_product_upto(b, a, n),
    decreases n,
{
    if n > 0 {
        lemma_ip_comm(a, b, (n - 1) as nat);
        lemma_fmul_comm(a[n - 1], b[n - 1]);
    }
}

/// The inner product with an elementwise sum is the sum of the inner
/// products.
pub proof fn lemma_ip_add(c: Seq<nat>, x: Seq<nat>, y: Seq<nat>, d: Seq<nat>, n: nat)
    requires
        forall|i: int| 0 <= i < n ==> c[i] == fadd(x[i], y[i]),
    ensures
        inner_product_upto(c, d, n) == fadd(
            inner_product_upto(x, d, n),
            inner_product_upto(y, d, n),
        ),
    decreases n,
{
    if n == 0 {
        lemma_identities(0);
        vstd::arithmetic::div_mod::lemma_small_mod(0, modulus());
    } else {
        let i = n - 1;
        lemma_ip_add(c, x, y, d, i as nat);
        lemma_fmul_distributes_right(x[i], y[i], d[i]);
        lemma_fadd_swap(
            inner_product_upto(x, d, i as nat),
            inner_product_upto(y, d, i as nat),
            fmul(x[i], d[i]),
            fmul(y[i], d[i]),
        );
    }
}

/// The inner product with an elementwise multiple is the multiple of the
/// inner product.
pub proof fn lemma_ip_scale(c: Seq<nat>, k: nat, x: Seq<nat>, d: Seq<nat>, n: nat)
    requires
        forall|i: int| 0 <= i < n ==> c[i] == fmul(k, x[i]),
    ensures
        inner_product_upto(c, d, n) == fmul(k, inner_product_upto(x, d, n)),
    decreases n,
{
    if n == 0 {
        lemma_identities(k);
    } else {
        let i = n - 1;
        lemma_ip_scale(c, k, x, d, i as nat);
        lemma_fmul_distributes(k, inner_product_upto(x, d, i as nat), fmul(x[i], d[i]));
        crate::field::lemma_fmul_assoc(k, x[i], d[i]);
    }
}

/// The inner product with zeros is zero.
pub proof fn lemma_ip_zero(c: Seq<nat>, d: Seq<nat>, n: nat)
    requires
        forall|i: int| 0 <= i < n ==> c[i] == 0,
    ensures
        inner_product_upto(c, d, n) == 0,
    decreases n,
{
    if n > 0 {
        lemma_ip_zero(c, d, (n - 1) as nat);
        lemma_identities(d[n - 1]);
        vstd::arithmetic::div_mod::lemma_small_mod(0, modulus());
    }
}

/// An inner product over `m + n` elements is the one over the first `m`
/// plus the one over the `n` that follow.
pub proof fn lemma_ip_split(a: Seq<nat>, b: Seq<nat>, m: nat, n: nat)
    requires
        m + n <= a.len(),
        m + n <= b.len(),
    ensures
        inner_product_upto(a, b, m + n) == fadd(
            inner_product_upto(a, b, m),
            inner_product_upto(
                a.subrange(m as int, (m + n) as int),
                b.subrange(m as int, (m + n) as int),
                n,
            ),
        ),
    decreases n,
{
    let a2 = a.subrange(m as int, (m + n) as int);
    let b2 = b.subrange(m as int, (m + n) as int);
    if n == 0 {
        lemma_ip_reduced(a, b, m);
        lemma_identities(inner_product_upto(a, b, m));
        vstd::arithmetic::div_mod::lemma_small_mod(inner_product_upto(a, b, m), modulus());
    } else {
        let k = (n - 1) as nat;
        lemma_ip_split(a, b, m, k);
        let a1 = a.subrange(m as int, (m + k) as int);
        let b1 = b.subrange(m as int, (m + k) as int);
        lemma_ip_same(a1, b1, a2, b2, k);
        crate::field::lemma_fadd_assoc(
            inner_product_upto(a, b, m),
            inner_product_upto(a2, b2, k),
            fmul(a2[n - 1], b2[n - 1]),
        );
    }
}

/// One step of the inner product with a difference, for reduced elements.
proof fn lemma_sub_step_reduced(sx: nat, sy: nat, x: nat, y: nat, d: nat)
    requires
        sx < modulus(),
        sy < modulus(),
        x < modulus(),
        y < modulus(),
        d < modulus(),
    ensures
        fadd(fsub(sx, sy), fmul(fsub(x, y), d)) == fsub(
            fadd(sx, fmul(x, d)),
            fadd(sy, fmul(y, d)),
        ),
{
    lemma_red_self(sx);
    lemma_red_self(sy);
    lemma_red_self(x);
    lemma_red_self(y);
    lemma_red_self(d);
    let (sxi, syi, xi, yi, di) = (sx as int, sy as int, x as int, y as int, d as int);
    crate::field::lemma_red_sub(sxi, syi);
    crate::field::lemma_red_sub(xi, yi);
    crate::field::lemma_red_mul(xi - yi, di);
    crate::field::lemma_red_add(sxi - syi, (xi - yi) * di);
    crate::field::lemma_red_mul(xi, di);
    crate::field::lemma_red_mul(yi, di);
    crate::field::lemma_red_add(sxi, xi * di);
    crate::field::lemma_red_add(syi, yi * di);
    crate::field::lemma_red_sub(sxi + xi * di, syi + yi * di);
    assert((xi - yi) * di == xi * di - yi * di) by (nonlinear_arith);
    assert((sxi - syi) + (xi - yi) * di == (sxi + xi * di) - (syi + yi * di));
}

/// One step of the inner product with a difference.
proof fn lemma_sub_step(sx: nat, sy: nat, x: nat, y: nat, d: nat)
    requires
        sx < modulus(),
        sy < modulus(),
    ensures
        fadd(fsub(sx, sy), fmul(fsub(x, y), d)) == fsub(
            fadd(sx, fmul(x, d)),
            fadd(sy, fmul(y, d)),
        ),
{
    let m = modulus();
    let (xr, yr, dr) = (x % m, y % m, d % m);
    vstd::arithmetic::div_mod::lemma_mod_bound(x as int, m as int);
    vstd::arithmetic::div_mod::lemma_mod_bound(y as int, m as int);
    vstd::arithmetic::div_mod::lemma_mod_bound(d as int, m as int);
    lemma_sub_step_reduced(sx, sy, xr, yr, dr);
    crate::field::lemma_fmul_reduce(x, d);
    crate::field::lemma_fmul_reduce(xr, d);
    crate::field::lemma_fmul_reduce(y, d);
    crate::field::lemma_fmul_reduce(yr, d);
    vstd::arithmetic::div_mod::lemma_sub_mod_noop(x as int, y as int, m as int);
    assert(fsub(x, y) == fsub(xr, yr));
    crate::field::lemma_fmul_reduce(fsub(x, y), d);
}

/// The inner product with an elementwise difference is the difference of
/// the inner products.
pub proof fn lemma_ip_sub(c: Seq<nat>, x: Seq<nat>, y: Seq<nat>, d: Seq<nat>, n: nat)
    requires
        forall|i: int| 0 <= i < n ==> c[i] == fsub(x[i], y[i]),
    ensures
        inner_product_upto(c, d, n) == fsub(
            inner_product_upto(x, d, n),
            inner_product_upto(y, d, n),
        ),
    decreases n,
{
    if n == 0 {
        vstd::arithmetic::div_mod::lemma_small_mod(0, modulus());
    } else {
        let i = n - 1;
        lemma_ip_sub(c, x, y, d, i as nat);
        lemma_ip_reduced(x, d, i as nat);
        lemma_ip_reduced(y, d, i as nat);
        lemma_sub_step(
            inner_product_upto(x, d, i as nat),
            inner_product_upto(y, d, i as nat),
            x[i],
            y[i],
            d[i],
        );
    }
}

/// A sequence continued with zeros up to the length `n`.
pub open spec fn padded(c: Seq<nat>, n: nat) -> Seq<nat> {
    Seq::new(n, |i: int| if i < c.len() { c[i] } else { 0 })
}

/// Zeros at the end add nothing to an inner product.
pub proof fn lemma_ip_padded(c: Seq<nat>, d: Seq<nat>, n: nat)
    requires
        c.len() <= n <= d.len(),
    ensures
        inner_product_upto(padded(c, n), d, n) == inner_product_upto(c, d, c.len()),
{
    let m = c.len();
    let p = padded(c, n);
    lemma_ip_split(p, d, m, (n - m) as nat);
    lemma_ip_zero(p.subrange(m as int, n as int), d.subrange(m as int, n as int), (n - m) as nat);
    lemma_ip_same(p, d, c, d, m);
    lemma_ip_reduced(c, d, m);
    lemma_identities(inner_product_upto(c, d, m));
    vstd::arithmetic::div_mod::lemma_small_mod(inner_product_upto(c, d, m), modulus());
}

/// Replacing a summand `c * d` by `v * d` adds `(v - c) * d`.
proof fn lemma_update_step(s: nat, c: nat, v: nat, d: nat)
    requires
        s < modulus(),
        c < modulus(),
        v < modulus(),
        d < modulus(),
    ensures
        fadd(s, fmul(v, d)) == fadd(fadd(s, fmul(c, d)), fmul(fsub(v, c), d)),
{
    lemma_red_self(s);
    lemma_red_self(c);
    lemma_red_self(v);
    lemma_red_self(d);
    let (si, ci, vi, di) = (s as int, c as int, v as int, d as int);
    lemma_red_mul(vi, di);
    lemma_red_add(si, vi * di);
    lemma_red_mul(ci, di);
    lemma_red_add(si, ci * di);
    lemma_red_sub(vi, ci);
    lemma_red_mul(vi - ci, di);
    lemma_red_add(si + (ci * di), (vi - ci) * di);
    assert((vi - ci) * di == vi * di - ci * di) by (nonlinear_arith);
    assert(si + (vi * di) == (si + (ci * di)) + ((vi - ci) * di));
}

/// A summand may be taken before another.
proof fn lemma_update_swap(s: nat, c: nat, v: nat, d: nat, t: nat)
    requires
        s < modulus(),
        c < modulus(),
        v < modulus(),
        d < modulus(),
        t < modulus(),
    ensures
        fadd(fadd(s, fmul(fsub(v, c), d)), t) == fadd(fadd(s, t), fmul(fsub(v, c), d)),
{
    lemma_red_self(s);
    lemma_red_self(c);
    lemma_red_self(v);
    lemma_red_self(d);
    lemma_red_self(t);
    let (si, ci, vi, di, ti) = (s as int, c as int, v as int, d as int, t as int);
    lemma_red_sub(vi, ci);
    lemma_red_mul(vi - ci, di);
    lemma_red_add(si, (vi - ci) * di);
    lemma_red_add(si + ((vi - ci) * di), ti);
    lemma_red_add(si, ti);
    lemma_red_sub(vi, ci);
    lemma_red_mul(vi - ci, di);
    lemma_red_add(si + ti, (vi - ci) * di);
}

/// Changing one element `c[i]` to `v` adds `(v - c[i]) * d[i]` to the
/// inner product.
pub proof fn lemma_ip_update(c: Seq<nat>, d: Seq<nat>, n: nat, i: int, v: nat)
    requires
        0 <= i < n,
        n <= c.len(),
        n <= d.len(),
        v < modulus(),
        forall|j: int| 0 <= j < n ==> c[j] < modulus() && d[j] < modulus(),
    ensures
        inner_product_upto(c.update(i, v), d, n) == fadd(
            inner_product_upto(c, d, n),
            fmul(fsub(v, c[i]), d[i]),
        ),
    decreases n,
{
    let changed = c.update(i, v);
    let m = (n - 1) as nat;
    lemma_ip_reduced(c, d, m);
    if i == n - 1 {
        lemma_ip_same(changed, d, c, d, m);
        lemma_update_step(inner_product_upto(c, d, m), c[i], v, d[i]);
    } else {
        lemma_ip_update(c, d, m, i, v);
        lemma_reduced(c[n - 1], d[n - 1]);
        lemma_update_swap(inner_product_upto(c, d, m), c[i], v, d[i], fmul(c[n - 1], d[n - 1]));
    }
}

} // verus!
