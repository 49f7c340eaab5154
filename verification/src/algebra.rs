//! Sums over sequences of scalars and points.

use vstd::prelude::*;
use crate::field::fadd;
use crate::field::finv;
use crate::field::fmul;
use crate::field::is_inverse;
use crate::point::CurvePoint;
use crate::point::Point;
use crate::point::curve_add;
use crate::point::curve_mul;
use crate::point::identity;
use crate::scalar::Scalar;

verus! {

/// The values of a sequence of scalars.
pub open spec fn values(s: Seq<Scalar>) -> Seq<nat> {
    s.map_values(|x: Scalar| x@)
}

/// The coordinates of a sequence of points.
pub open spec fn curve_points(s: Seq<Point>) -> Seq<CurvePoint> {
    s.map_values(|p: Point| p@)
}

/// The shorter of two lengths.
pub open spec fn shorter(m: nat, n: nat) -> nat {
    if m <= n {
        m
    } else {
        n
    }
}

/// `a[0] * b[0] + .. + a[n - 1] * b[n - 1]` in the scalar field.
pub open spec fn inner_product_upto(a: Seq<nat>, b: Seq<nat>, n: nat) -> nat
    decreases n,
{
    if n == 0 {
        0
    } else {
        fadd(inner_product_upto(a, b, (n - 1) as nat), fmul(a[n - 1], b[n - 1]))
    }
}

/// Inner product of two sequences of field elements, over the length of
/// the shorter one.
pub open spec fn inner_product(a: Seq<nat>, b: Seq<nat>) -> nat {
    inner_product_upto(a, b, shorter(a.len(), b.len()))
}

/// The inverse of each element.
pub open spec fn inverses(s: Seq<nat>) -> Seq<nat> {
    s.map_values(|x: nat| finv(x))
}

/// Every element has its inverse.
pub open spec fn all_invertible(u: Seq<nat>) -> bool {
    forall|j: int| 0 <= j < u.len() ==> is_inverse(#[trigger] u[j], finv(u[j]))
}

/// `c[0] * g[0] + .. + c[n - 1] * g[n - 1]` in the group.
pub open spec fn msm_upto(c: Seq<nat>, g: Seq<CurvePoint>, n: nat) -> CurvePoint
    decreases n,
{
    if n == 0 {
        identity()
    } else {
        curve_add(msm_upto(c, g, (n - 1) as nat), curve_mul(g[n - 1], c[n - 1]))
    }
}

/// Inner product of a sequence of field elements with a sequence of
/// points, over the length of the shorter one.
pub open spec fn msm(c: Seq<nat>, g: Seq<CurvePoint>) -> CurvePoint {
    msm_upto(c, g, shorter(c.len(), g.len()))
}

} // verus!
