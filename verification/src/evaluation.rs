//! How the value of a polynomial at a point goes with sums and products.

use vstd::prelude::*;
use crate::field::fadd;
use crate::field::fmul;
use crate::field::fsub;
use crate::field::lemma_fadd_reduce;
use crate::field::lemma_fadd_swap;
use crate::field::lemma_fmul_assoc;
use crate::field::lemma_fmul_comm;
use crate::field::lemma_fmul_distributes;
use crate::field::lemma_fmul_distributes_right;
use crate::field::lemma_fsub_fadd;
use crate::field::lemma_identities;
use crate::field::lemma_reduced;
use crate::field::modulus;
use crate::polynomial::blinding_polynomial;
use crate::polynomial::coeff;
use crate::polynomial::poly_add;
use crate::polynomial::poly_eval;
use crate::polynomial::poly_mul;
use crate::polynomial::poly_product;
use crate::polynomial::poly_scale;
use crate::polynomial::poly_shift;
use crate::polynomial::trim;

verus! {

/// The coefficients above the constant one.
pub open spec fn tail(c: Seq<nat>) -> Seq<nat> {
    if c.len() == 0 {
        c
    } else {
        c.drop_first()
    }
}

/// The value of a polynomial is reduced, and is its constant coefficient
/// plus `x` times the value of the rest.
pub proof fn lemma_eval_unfold(c: Seq<nat>, x: nat)
    ensures
        poly_eval(c, x) < modulus(),
        poly_eval(c, x) == fadd(coeff(c, 0), fmul(x, poly_eval(tail(c), x))),
{
    if c.len() == 0 {
        lemma_identities(x);
    } else {
        lemma_reduced(c[0], fmul(x, poly_eval(c.drop_first(), x)));
    }
}

/// A zero coefficient at the end does not change the value.
pub proof fn lemma_eval_push_zero(c: Seq<nat>, x: nat)
    ensures
        poly_eval(c.push(0), x) == poly_eval(c, x),
    decreases c.len(),
{
    if c.len() == 0 {
        assert(c.push(0).drop_first() =~= Seq::<nat>::empty());
        assert(poly_eval(c.push(0).drop_first(), x) == 0);
        assert(c.push(0)[0] == 0);
        lemma_identities(x);
        lemma_identities(0);
    } else {
        assert(c.push(0).drop_first() =~= c.drop_first().push(0));
        assert(c.push(0)[0] == c[0]);
        lemma_eval_push_zero(c.drop_first(), x);
    }
}

/// Trailing zero coefficients do not change the value.
pub proof fn lemma_eval_trim(c: Seq<nat>, x: nat)
    ensures
        poly_eval(trim(c), x) == poly_eval(c, x),
    decreases c.len(),
{
    if c.len() > 0 && c.last() == 0 {
        lemma_eval_trim(c.drop_last(), x);
        assert(c =~= c.drop_last().push(0));
        lemma_eval_push_zero(c.drop_last(), x);
    }
}

/// The value of a sum is the sum of the values.
pub proof fn lemma_eval_add(a: Seq<nat>, b: Seq<nat>, x: nat)
    ensures
        poly_eval(poly_add(a, b), x) == fadd(poly_eval(a, x), poly_eval(b, x)),
    decreases a.len() + b.len(),
{
    let s = poly_add(a, b);
    if a.len() == 0 && b.len() == 0 {
        assert(s =~= Seq::<nat>::empty());
    } else {
        assert(tail(s) =~= poly_add(tail(a), tail(b)));
        lemma_eval_add(tail(a), tail(b), x);
        lemma_eval_unfold(s, x);
        lemma_eval_unfold(a, x);
        lemma_eval_unfold(b, x);
        let ea = poly_eval(tail(a), x);
        let eb = poly_eval(tail(b), x);
        lemma_fmul_distributes(x, ea, eb);
        lemma_fadd_swap(coeff(a, 0), coeff(b, 0), fmul(x, ea), fmul(x, eb));
    }
}

/// The value of a multiple is the multiple of the value.
pub proof fn lemma_eval_scale(a: Seq<nat>, k: nat, x: nat)
    ensures
        poly_eval(poly_scale(a, k), x) == fmul(k, poly_eval(a, x)),
    decreases a.len(),
{
    let s = poly_scale(a, k);
    if a.len() == 0 {
        assert(s =~= Seq::<nat>::empty());
        lemma_identities(k);
    } else {
        assert(s.drop_first() =~= poly_scale(a.drop_first(), k));
        lemma_eval_scale(a.drop_first(), k, x);
        let ea = poly_eval(a.drop_first(), x);
        lemma_fmul_distributes(k, a[0], fmul(x, ea));
        lemma_fmul_assoc(k, x, ea);
        lemma_fmul_comm(k, x);
        lemma_fmul_assoc(x, k, ea);
    }
}

/// The value of `X` times a polynomial is `x` times its value.
pub proof fn lemma_eval_shift(a: Seq<nat>, x: nat)
    ensures
        poly_eval(poly_shift(a), x) == fmul(x, poly_eval(a, x)),
{
    assert(poly_shift(a).drop_first() =~= a);
    lemma_identities(fmul(x, poly_eval(a, x)));
    lemma_reduced(x, poly_eval(a, x));
    vstd::arithmetic::div_mod::lemma_small_mod(fmul(x, poly_eval(a, x)), modulus());
}

/// The value of a product is the product of the values.
pub proof fn lemma_eval_mul(a: Seq<nat>, b: Seq<nat>, x: nat)
    ensures
        poly_eval(poly_mul(a, b), x) == fmul(poly_eval(a, x), poly_eval(b, x)),
    decreases a.len(),
{
    if a.len() == 0 {
        lemma_identities(poly_eval(b, x));
    } else {
        let rest = poly_mul(a.drop_first(), b);
        lemma_eval_mul(a.drop_first(), b, x);
        lemma_eval_add(poly_scale(b, a[0]), poly_shift(rest), x);
        lemma_eval_scale(b, a[0], x);
        lemma_eval_shift(rest, x);
        let ea = poly_eval(a.drop_first(), x);
        let eb = poly_eval(b, x);
        lemma_fmul_distributes_right(a[0], fmul(x, ea), eb);
        lemma_fmul_assoc(x, ea, eb);
    }
}

/// The value of a trimmed product is the product of the values.
pub proof fn lemma_eval_product(a: Seq<nat>, b: Seq<nat>, x: nat)
    ensures
        poly_eval(poly_product(a, b), x) == fmul(poly_eval(a, x), poly_eval(b, x)),
{
    if a.len() == 0 || b.len() == 0 {
        lemma_identities(poly_eval(a, x));
        lemma_identities(poly_eval(b, x));
    } else {
        lemma_eval_trim(poly_mul(a, b), x);
        lemma_eval_mul(a, b, x);
    }
}

/// The factor `X - x` vanishes at `x`.
pub proof fn lemma_vanishing_factor(x: nat)
    ensures
        poly_eval(seq![fsub(0, x), 1nat], x) == 0,
{
    let v = seq![fsub(0, x), 1nat];
    assert(v.drop_first() =~= seq![1nat]);
    assert(v.drop_first().drop_first() =~= Seq::<nat>::empty());
    lemma_identities(x);
    lemma_identities(1);
    vstd::arithmetic::div_mod::lemma_small_mod(1, modulus());
    assert(poly_eval(v.drop_first().drop_first(), x) == 0);
    assert(poly_eval(v.drop_first(), x) == fadd(1, fmul(x, 0)));
    assert(poly_eval(v.drop_first(), x) == 1);
    lemma_fadd_reduce(fsub(0, x), x);
    lemma_fsub_fadd(0, x);
    vstd::arithmetic::div_mod::lemma_small_mod(0, modulus());
}

/// Trimming does not lengthen.
pub proof fn lemma_trim_len(c: Seq<nat>)
    ensures
        trim(c).len() <= c.len(),
    decreases c.len(),
{
    if c.len() > 0 && c.last() == 0 {
        lemma_trim_len(c.drop_last());
    }
}

/// The product of two polynomials with coefficients has one coefficient
/// less than the two together.
pub proof fn lemma_mul_len(a: Seq<nat>, b: Seq<nat>)
    requires
        a.len() > 0,
        b.len() > 0,
    ensures
        poly_mul(a, b).len() == a.len() + b.len() - 1,
    decreases a.len(),
{
    if a.len() > 1 {
        lemma_mul_len(a.drop_first(), b);
    } else {
        assert(poly_mul(a.drop_first(), b).len() == 0);
    }
}

/// Trimming leaves a sequence that does not end in zero as it is.
pub proof fn lemma_trim_nonzero(c: Seq<nat>)
    requires
        c.len() > 0,
        c.last() != 0,
    ensures
        trim(c) == c,
{
}

/// The leading coefficient of a product is the product of the leading
/// coefficients.
pub proof fn lemma_mul_leading(a: Seq<nat>, b: Seq<nat>)
    requires
        a.len() > 0,
        b.len() > 0,
    ensures
        poly_mul(a, b).len() == a.len() + b.len() - 1,
        poly_mul(a, b).last() == fmul(a.last(), b.last()),
    decreases a.len(),
{
    lemma_mul_len(a, b);
    let rest = poly_mul(a.drop_first(), b);
    let scaled = poly_scale(b, a[0]);
    let shifted = poly_shift(rest);
    let top = a.len() + b.len() - 2;
    if a.len() == 1 {
        assert(rest.len() == 0);
        assert(coeff(shifted, top) == 0);
        assert(coeff(scaled, top) == fmul(a[0], b.last()));
        lemma_identities(fmul(a[0], b.last()));
        lemma_reduced(a[0], b.last());
        vstd::arithmetic::div_mod::lemma_small_mod(fmul(a[0], b.last()), modulus());
    } else {
        lemma_mul_leading(a.drop_first(), b);
        assert(a.drop_first().last() == a.last());
        assert(coeff(scaled, top) == 0);
        assert(coeff(shifted, top) == rest.last());
        lemma_identities(rest.last());
        lemma_reduced(a.last(), b.last());
        vstd::arithmetic::div_mod::lemma_small_mod(rest.last(), modulus());
    }
}

/// A blinding polynomial has at most two coefficients more than the public
/// polynomial.
pub proof fn lemma_blinding_polynomial_len(x: nat, b0: nat, b1: nat, public_poly: Seq<nat>)
    ensures
        blinding_polynomial(x, b0, b1, public_poly).len() <= public_poly.len() + 2,
{
    let vanishing = seq![fsub(0, x), 1nat];
    let factor = trim(seq![b0, b1]);
    let first = poly_product(vanishing, factor);
    lemma_trim_len(seq![b0, b1]);
    if factor.len() > 0 {
        lemma_mul_len(vanishing, factor);
        lemma_trim_len(poly_mul(vanishing, factor));
    }
    if first.len() > 0 && public_poly.len() > 0 {
        lemma_mul_len(first, public_poly);
        lemma_trim_len(poly_mul(first, public_poly));
    }
}

} // verus!
