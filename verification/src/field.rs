//! The scalar field as integers modulo its order.

use vstd::arithmetic::div_mod::*;
use vstd::arithmetic::mul::*;
use vstd::prelude::*;

verus! {

/// Order of the scalar field of BLS12-381.
pub open spec fn modulus() -> nat {
    52435875175126190479447740508185965837690552500527637822603658699938581184513nat
}

/// Sum in the scalar field.
pub open spec fn fadd(a: nat, b: nat) -> nat {
    (a + b) % modulus()
}

/// Difference in the scalar field.
pub open spec fn fsub(a: nat, b: nat) -> nat {
    ((a as int - b as int) % (modulus() as int)) as nat
}

/// Product in the scalar field.
pub open spec fn fmul(a: nat, b: nat) -> nat {
    (a * b) % modulus()
}

/// `i` is the reduced multiplicative inverse of `a`.
pub open spec fn is_inverse(a: nat, i: nat) -> bool {
    i < modulus() && fmul(a, i) == 1
}

/// The multiplicative inverse of `a`, where it has one.
pub open spec fn finv(a: nat) -> nat {
    choose|i: nat| is_inverse(a, i)
}

/// Addition in the field does not depend on the order of the summands.
pub proof fn lemma_fadd_comm(a: nat, b: nat)
    ensures
        fadd(a, b) == fadd(b, a),
{
}

/// Multiplication in the field does not depend on the order of the
/// factors.
pub proof fn lemma_fmul_comm(a: nat, b: nat)
    ensures
        fmul(a, b) == fmul(b, a),
{
    lemma_mul_is_commutative(a as int, b as int);
}

/// Addition in the field is associative.
pub proof fn lemma_fadd_assoc(a: nat, b: nat, c: nat)
    ensures
        fadd(fadd(a, b), c) == fadd(a, fadd(b, c)),
{
    let m: int = modulus() as int;
    let a_i: int = a as int;
    let bi: int = b as int;
    let ci: int = c as int;
    lemma_add_mod_noop_right(ci, a_i + bi, m);
    lemma_add_mod_noop_right(a_i, bi + ci, m);
}

/// Multiplication in the field is associative.
pub proof fn lemma_fmul_assoc(a: nat, b: nat, c: nat)
    ensures
        fmul(fmul(a, b), c) == fmul(a, fmul(b, c)),
{
    let m: int = modulus() as int;
    let a_i: int = a as int;
    let bi: int = b as int;
    let ci: int = c as int;
    lemma_mul_mod_noop_left(a_i * bi, ci, m);
    lemma_mul_mod_noop_right(a_i, bi * ci, m);
    lemma_mul_is_associative(a_i, bi, ci);
}

/// Multiplication in the field distributes over addition.
pub proof fn lemma_fmul_distributes(a: nat, b: nat, c: nat)
    ensures
        fmul(a, fadd(b, c)) == fadd(fmul(a, b), fmul(a, c)),
{
    let m: int = modulus() as int;
    let a_i: int = a as int;
    let bi: int = b as int;
    let ci: int = c as int;
    lemma_mul_mod_noop_right(a_i, bi + ci, m);
    lemma_mul_is_distributive_add(a_i, bi, ci);
    lemma_add_mod_noop(a_i * bi, a_i * ci, m);
}

/// Every sum and product in the field is reduced.
pub proof fn lemma_reduced(a: nat, b: nat)
    ensures
        fadd(a, b) < modulus(),
        fmul(a, b) < modulus(),
        fsub(a, b) < modulus(),
{
    lemma_mod_bound((a + b) as int, modulus() as int);
    lemma_mod_bound((a * b) as int, modulus() as int);
    lemma_mod_bound(a as int - b as int, modulus() as int);
}

/// Zero and one behave as they should.
pub proof fn lemma_identities(a: nat)
    ensures
        fadd(a, 0) == a % modulus(),
        fadd(0, a) == a % modulus(),
        fmul(a, 1) == a % modulus(),
        fmul(1, a) == a % modulus(),
        fmul(a, 0) == 0,
        fmul(0, a) == 0,
        fsub(a, 0) == a % modulus(),
{
    lemma_mul_basics(a as int);
    lemma_small_mod(0, modulus());
}

/// A sum does not change when a summand is reduced first.
pub proof fn lemma_fadd_reduce(a: nat, b: nat)
    ensures
        fadd(a % modulus(), b) == fadd(a, b),
        fadd(a, b % modulus()) == fadd(a, b),
{
    let m: int = modulus() as int;
    lemma_add_mod_noop_right(a as int, b as int, m);
    lemma_add_mod_noop_right(b as int, a as int, m);
}

/// A product does not change when a factor is reduced first.
pub proof fn lemma_fmul_reduce(a: nat, b: nat)
    ensures
        fmul(a % modulus(), b) == fmul(a, b),
        fmul(a, b % modulus()) == fmul(a, b),
{
    let m: int = modulus() as int;
    lemma_mul_mod_noop_left(a as int, b as int, m);
    lemma_mul_mod_noop_right(a as int, b as int, m);
}

/// Four summands may be paired either way.
pub proof fn lemma_fadd_swap(p: nat, q: nat, r: nat, s: nat)
    ensures
        fadd(fadd(p, q), fadd(r, s)) == fadd(fadd(p, r), fadd(q, s)),
{
    lemma_fadd_assoc(fadd(p, q), r, s);
    lemma_fadd_assoc(p, q, r);
    lemma_fadd_comm(q, r);
    lemma_fadd_assoc(p, r, q);
    lemma_fadd_assoc(fadd(p, r), q, s);
}

/// Multiplication distributes from the right too.
pub proof fn lemma_fmul_distributes_right(a: nat, b: nat, c: nat)
    ensures
        fmul(fadd(a, b), c) == fadd(fmul(a, c), fmul(b, c)),
{
    lemma_fmul_comm(fadd(a, b), c);
    lemma_fmul_distributes(c, a, b);
    lemma_fmul_comm(c, a);
    lemma_fmul_comm(c, b);
}

/// A difference plus what was taken away gives the first number back.
pub proof fn lemma_fsub_fadd(a: nat, b: nat)
    ensures
        fadd(fsub(a, b), b) == a % modulus(),
        fsub(fadd(a, b), b) == a % modulus(),
{
    let m: int = modulus() as int;
    lemma_add_mod_noop_right(b as int, a as int - b as int, m);
    lemma_sub_mod_noop((a + b) as int, b as int, m);
    lemma_sub_mod_noop(((a + b) as int) % m, b as int, m);
    lemma_mod_twice((a + b) as int, m);
}

/// The field element that an integer stands for.
pub open spec fn red(x: int) -> nat {
    (x % (modulus() as int)) as nat
}

/// A reduced number stands for itself.
pub proof fn lemma_red_self(a: nat)
    requires
        a < modulus(),
    ensures
        red(a as int) == a,
{
    lemma_small_mod(a, modulus());
}

/// The sum of the elements that two integers stand for is what their sum
/// stands for.
pub proof fn lemma_red_add(x: int, y: int)
    ensures
        fadd(red(x), red(y)) == red(x + y),
{
    lemma_add_mod_noop(x, y, modulus() as int);
}

/// The product of the elements that two integers stand for is what their
/// product stands for.
pub proof fn lemma_red_mul(x: int, y: int)
    ensures
        fmul(red(x), red(y)) == red(x * y),
{
    lemma_mul_mod_noop_general(x, y, modulus() as int);
    lemma_mod_bound(x, modulus() as int);
    lemma_mod_bound(y, modulus() as int);
    lemma_mul_nonnegative(x % (modulus() as int), y % (modulus() as int));
}

/// The difference of the elements that two integers stand for is what
/// their difference stands for.
pub proof fn lemma_red_sub(x: int, y: int)
    ensures
        fsub(red(x), red(y)) == red(x - y),
{
    lemma_sub_mod_noop(x, y, modulus() as int);
}

/// A field element has at most one reduced inverse.
pub proof fn lemma_inverse_unique(a: nat, i: nat)
    requires
        is_inverse(a, i),
    ensures
        finv(a) == i,
{
    assert forall|k: nat| is_inverse(a, k) implies k == i by {
        lemma_fmul_assoc(k, a, i);
        lemma_fmul_comm(k, a);
        lemma_small_mod(k, modulus());
        lemma_small_mod(i, modulus());
        assert(fmul(k, 1) == k) by {
            lemma_mul_basics(k as int);
        }
        assert(fmul(1, i) == i) by {
            lemma_mul_basics(i as int);
        }
    }
}

/// The element has a multiplicative inverse; in the field, it is not zero.
pub open spec fn invertible(a: nat) -> bool {
    is_inverse(a, finv(a))
}

/// The product of two elements that have inverses has one, and is not
/// zero.
pub proof fn lemma_product_invertible(p: nat, q: nat)
    requires
        invertible(p),
        invertible(q),
    ensures
        invertible(fmul(p, q)),
        fmul(p, q) != 0,
{
    let pi = finv(p);
    let qi = finv(q);
    let both = fmul(pi, qi);
    lemma_reduced(pi, qi);
    // (p * q) * (pi * qi) = (p * pi) * (q * qi)
    lemma_fmul_assoc(fmul(p, q), pi, qi);
    lemma_fmul_assoc(p, q, pi);
    lemma_fmul_comm(q, pi);
    lemma_fmul_assoc(p, pi, q);
    lemma_fmul_assoc(fmul(p, pi), q, qi);
    lemma_identities(1);
    lemma_small_mod(1, modulus());
    assert(fmul(fmul(p, q), both) == 1);
    lemma_inverse_unique(fmul(p, q), both);
    if fmul(p, q) == 0 {
        lemma_identities(both);
    }
}

} // verus!
