//! The group that the generator spans, and what sums in it come to.
//!
//! The curve arithmetic is not verified here. What this module proves of
//! sums and multiples of points, it proves for the points `k * G` under
//! `group_laws`: that the curve arithmetic adds and multiplies such points as
//! the scalar field adds and multiplies the factors `k`.

use vstd::prelude::*;
use crate::algebra::inner_product_upto;
use crate::algebra::msm_upto;
use crate::field::fadd;
use crate::field::fmul;
use crate::field::fsub;
use crate::field::lemma_fmul_comm;
use crate::field::lemma_reduced;
use crate::field::modulus;
use crate::point::CurvePoint;
use crate::point::curve_add;
use crate::point::curve_mul;
use crate::point::curve_neg;
use crate::point::curve_sub;
use crate::point::identity;

verus! {

/// The generator of the prime-order subgroup of G1.
pub open spec fn generator() -> CurvePoint {
    CurvePoint {
        x: 3685416753713387016781088315183077757961620795782546409894578378688607592378376318836054947676345821548104185464507nat,
        y: 1339506544944476473020471379941921221584933875938349620426543736416511423956333506472724655353366534992391756441569nat,
        infinity: false,
    }
}

/// The multiple `k * G` of the generator.
#[verifier::opaque]
pub open spec fn multiple(k: nat) -> CurvePoint {
    curve_mul(generator(), k)
}

/// The sum of two multiples of the generator is the multiple by the sum.
pub open spec fn adds_as_field(a: nat, b: nat) -> bool {
    curve_add(multiple(a), multiple(b)) == multiple(fadd(a, b))
}

/// A multiple of a multiple of the generator is the multiple by the
/// product.
pub open spec fn multiplies_as_field(a: nat, b: nat) -> bool {
    curve_mul(multiple(a), b) == multiple(fmul(a, b))
}

/// The opposite of a multiple of the generator is the multiple by the
/// opposite.
pub open spec fn negates_as_field(a: nat) -> bool {
    curve_neg(multiple(a)) == multiple(fsub(0, a))
}

/// The curve arithmetic makes the multiples of the generator a module over
/// the scalar field.
pub open spec fn group_laws() -> bool {
    &&& forall|a: nat, b: nat| a < modulus() && b < modulus() ==> #[trigger] adds_as_field(a, b)
    &&& forall|a: nat, b: nat|
        a < modulus() && b < modulus() ==> #[trigger] multiplies_as_field(a, b)
    &&& forall|a: nat| a < modulus() ==> #[trigger] negates_as_field(a)
}

/// Different reduced factors give different multiples of the generator.
pub open spec fn faithful() -> bool {
    forall|a: nat, b: nat|
        a < modulus() && b < modulus() && #[trigger] multiple(a) == #[trigger] multiple(b) ==> a
            == b
}

/// The point is a multiple of the generator.
pub open spec fn in_group(p: CurvePoint) -> bool {
    exists|k: nat| k < modulus() && p == #[trigger] multiple(k)
}

/// A factor by which the generator gives the point.
pub open spec fn dlog(p: CurvePoint) -> nat {
    choose|k: nat| k < modulus() && p == #[trigger] multiple(k)
}

/// Every point of the sequence is a multiple of the generator.
pub open spec fn all_in_group(g: Seq<CurvePoint>) -> bool {
    forall|i: int| 0 <= i < g.len() ==> in_group(#[trigger] g[i])
}

/// Every element of the sequence is reduced.
pub open spec fn all_reduced(s: Seq<nat>) -> bool {
    forall|i: int| 0 <= i < s.len() ==> #[trigger] s[i] < modulus()
}

/// The points are the multiples of the generator by the factors.
pub open spec fn represents(points: Seq<CurvePoint>, factors: Seq<nat>) -> bool {
    &&& points.len() == factors.len()
    &&& forall|i: int|
        0 <= i < points.len() ==> #[trigger] factors[i] < modulus() && points[i] == multiple(
            factors[i],
        )
}

/// A factor for each point.
pub open spec fn dlogs(g: Seq<CurvePoint>) -> Seq<nat> {
    g.map_values(|p: CurvePoint| dlog(p))
}

/// The point at infinity is the generator times zero.
pub proof fn lemma_multiple_zero()
    ensures
        multiple(0) == identity(),
{
    reveal(multiple);
}

/// The sum of two multiples of the generator.
pub proof fn lemma_add_multiples(a: nat, b: nat)
    requires
        group_laws(),
        a < modulus(),
        b < modulus(),
    ensures
        curve_add(multiple(a), multiple(b)) == multiple(fadd(a, b)),
        fadd(a, b) < modulus(),
{
    assert(adds_as_field(a, b));
    lemma_reduced(a, b);
}

/// A multiple of a multiple of the generator.
pub proof fn lemma_mul_multiple(a: nat, b: nat)
    requires
        group_laws(),
        a < modulus(),
        b < modulus(),
    ensures
        curve_mul(multiple(a), b) == multiple(fmul(a, b)),
        fmul(a, b) < modulus(),
{
    assert(multiplies_as_field(a, b));
    lemma_reduced(a, b);
}

/// The difference of two multiples of the generator.
pub proof fn lemma_sub_multiples(a: nat, b: nat)
    requires
        group_laws(),
        a < modulus(),
        b < modulus(),
    ensures
        curve_sub(multiple(a), multiple(b)) == multiple(fsub(a, b)),
        fsub(a, b) < modulus(),
{
    assert(negates_as_field(b));
    lemma_reduced(0, b);
    lemma_add_multiples(a, fsub(0, b));
    lemma_reduced(a, b);
    let m: int = modulus() as int;
    vstd::arithmetic::div_mod::lemma_add_mod_noop_right(a as int, 0 - b as int, m);
}

/// Each point of a sequence in the group is the generator times its
/// factor.
pub proof fn lemma_dlogs_represent(g: Seq<CurvePoint>)
    requires
        all_in_group(g),
    ensures
        represents(g, dlogs(g)),
{
    assert forall|i: int| 0 <= i < g.len() implies #[trigger] dlogs(g)[i] < modulus() && g[i]
        == multiple(dlogs(g)[i]) by {
        assert(in_group(g[i]));
    }
}

/// An inner product of field elements with multiples of the generator is
/// the multiple by the inner product with the factors.
pub proof fn lemma_msm_factor(c: Seq<nat>, points: Seq<CurvePoint>, factors: Seq<nat>, n: nat)
    requires
        group_laws(),
        represents(points, factors),
        all_reduced(c),
        n <= c.len(),
        n <= points.len(),
    ensures
        msm_upto(c, points, n) == multiple(inner_product_upto(c, factors, n)),
        inner_product_upto(c, factors, n) < modulus(),
    decreases n,
{
    if n == 0 {
        lemma_multiple_zero();
    } else {
        let i = n - 1;
        lemma_msm_factor(c, points, factors, i as nat);
        assert(factors[i] < modulus() && points[i] == multiple(factors[i]));
        assert(c[i] < modulus());
        lemma_mul_multiple(factors[i], c[i]);
        lemma_fmul_comm(factors[i], c[i]);
        lemma_add_multiples(inner_product_upto(c, factors, i as nat), fmul(c[i], factors[i]));
    }
}

} // verus!
