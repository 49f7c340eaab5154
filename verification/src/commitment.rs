//! Commitments to polynomials and the direct opening check.

use vstd::prelude::*;
use crate::algebra::curve_points;
use crate::algebra::inner_product;
use crate::algebra::inner_product_upto;
use crate::algebra::inverses;
use crate::algebra::msm;
use crate::algebra::msm_upto;
use crate::algebra::shorter;
use crate::algebra::values;
use crate::error::CommitmentError;
use crate::field::fadd;
use crate::field::fmul;
use crate::field::lemma_inverse_unique;
use crate::point::CurvePoint;
use crate::point::Point;
use crate::point::curve_add;
use crate::point::curve_mul;
use crate::point::curve_sub;
use crate::point::g1_add;
use crate::point::g1_mul;
use crate::point::g1_neg;
pub use crate::folding::concentrate;
pub use crate::point::random_affine_point;
pub use crate::polynomial::create_blinding_polynomial;
use crate::polynomial::Polynomial;
use crate::scalar::Scalar;
use crate::scalar::fr_add;
use crate::scalar::fr_inverse;
use crate::scalar::fr_mul;

verus! {

/// As many points as asked for, each drawn independently.
pub fn create_random_basis(n: usize) -> (r: Vec<Point>)
    ensures
        r@.len() == n,
{
    let mut basis: Vec<Point> = Vec::new();
    let mut i: usize = 0;
    while i < n
        invariant
            i <= n,
            basis@.len() == i,
        decreases n - i,
    {
        basis.push(random_affine_point());
        i += 1;
    }
    basis
}

/// Inner product of field elements with points, over the length of the
/// shorter of the two.
pub fn inner_product_group(coeffs: &Vec<Scalar>, basis: &[Point]) -> (r: Point)
    ensures
        r@ == msm(values(coeffs@), curve_points(basis@)),
{
    let n: usize = if coeffs.len() < basis.len() {
        coeffs.len()
    } else {
        basis.len()
    };
    let mut acc = Point::identity();
    let mut i: usize = 0;
    while i < n
        invariant
            i <= n,
            n <= coeffs@.len(),
            n <= basis@.len(),
            acc@ == msm_upto(values(coeffs@), curve_points(basis@), i as nat),
        decreases n - i,
    {
        acc = g1_add(acc, g1_mul(basis[i], coeffs[i]));
        i += 1;
    }
    acc
}

/// Inner product of two vectors of field elements, over the length of the
/// shorter of the two.
pub fn inner_product_field(left: &Vec<Scalar>, right: &Vec<Scalar>) -> (r: Scalar)
    ensures
        r@ == inner_product(values(left@), values(right@)),
{
    let n: usize = if left.len() < right.len() {
        left.len()
    } else {
        right.len()
    };
    let mut acc = Scalar::zero();
    let mut i: usize = 0;
    while i < n
        invariant
            i <= n,
            n <= left@.len(),
            n <= right@.len(),
            acc@ == inner_product_upto(values(left@), values(right@), i as nat),
        decreases n - i,
    {
        acc = fr_add(acc, fr_mul(left[i], right[i]));
        i += 1;
    }
    acc
}

/// Whether one of the first `n` elements is zero.
pub open spec fn has_zero_upto(s: Seq<nat>, n: nat) -> bool {
    exists|i: int| 0 <= i < n && s[i] == 0
}

/// Inner product of two vectors of field elements, each element of `right`
/// taken by its inverse, over the length of the shorter of the two. Fails
/// where an element of `right` that takes part is zero.
pub fn inner_product_field_inverse(left: &Vec<Scalar>, right: &Vec<Scalar>) -> (r: Result<
    Scalar,
    CommitmentError,
>)
    ensures
        has_zero_upto(values(right@), shorter(left@.len(), right@.len())) ==> r
            == Err::<Scalar, CommitmentError>(CommitmentError::DivisionByZero),
        !has_zero_upto(values(right@), shorter(left@.len(), right@.len())) ==> r
            is Ok && r.unwrap()@ == inner_product(values(left@), inverses(values(right@))),
{
    let n: usize = if left.len() < right.len() {
        left.len()
    } else {
        right.len()
    };
    let mut acc = Scalar::zero();
    let mut i: usize = 0;
    while i < n
        invariant
            i <= n,
            n <= left@.len(),
            n <= right@.len(),
            !has_zero_upto(values(right@), i as nat),
            acc@ == inner_product_upto(values(left@), inverses(values(right@)), i as nat),
        decreases n - i,
    {
        match fr_inverse(right[i]) {
            None => {
                proof {
                    assert(values(right@)[i as int] == 0);
                }
                return Err(CommitmentError::DivisionByZero);
            },
            Some(inv) => {
                proof {
                    lemma_inverse_unique(right[i as int]@, inv@);
                }
                acc = fr_add(acc, fr_mul(left[i], inv));
            },
        }
        i += 1;
    }
    Ok(acc)
}

/// What a commitment is: the inner product of the coefficients with the
/// basis, plus the blinding generator times the randomness.
pub open spec fn commit_spec(coeffs: Seq<nat>, basis: Seq<CurvePoint>, r: nat, h: CurvePoint)
    -> CurvePoint {
    curve_add(msm(coeffs, basis), curve_mul(h, r))
}

/// Commits to a polynomial over a basis at least as long as the polynomial
/// has coefficients; basis elements beyond that are not used.
pub fn commit(poly: &Polynomial, basis: &Vec<Point>, r: Scalar, h: Point) -> (c: Result<
    Point,
    CommitmentError,
>)
    ensures
        poly@.len() > basis@.len() ==> c == Err::<Point, CommitmentError>(
            CommitmentError::LengthMismatch,
        ),
        poly@.len() <= basis@.len() ==> c is Ok && c.unwrap()@ == commit_spec(
            poly@,
            curve_points(basis@),
            r@,
            h@,
        ),
{
    if poly.coeffs().len() > basis.len() {
        return Err(CommitmentError::LengthMismatch);
    }
    let sum = inner_product_group(poly.coeffs(), basis.as_slice());
    Ok(g1_add(sum, g1_mul(h, r)))
}

/// The two sides of the opening identity agree.
pub open spec fn opening_holds(
    p_comm: CurvePoint,
    s_comm: CurvePoint,
    blinded: Seq<nat>,
    basis: Seq<CurvePoint>,
    rand: nat,
    h: CurvePoint,
    p_x: nat,
    s_b: nat,
    iota: nat,
) -> bool {
    curve_add(curve_sub(p_comm, curve_mul(basis[0], p_x)), curve_mul(s_comm, iota)) == commit_spec(
        blinded,
        basis,
        fadd(rand, fmul(iota, s_b)),
        h,
    )
}

/// Checks an opening: the commitment to the polynomial, less the first
/// basis element times the claimed value, plus the commitment to the
/// blinding polynomial times `iota`, is the commitment to the blinded
/// polynomial under the randomness `rand + iota * s_b`. A basis that is empty
/// or shorter than the blinded polynomial is rejected.
pub fn naive_open(
    p_comm: Point,
    s_comm: Point,
    blinded_poly: &Polynomial,
    basis: &Vec<Point>,
    rand: Scalar,
    h: Point,
    p_x: Scalar,
    s_b: Scalar,
    iota: Scalar,
) -> (ok: bool)
    ensures
        ok == (basis@.len() > 0 && blinded_poly@.len() <= basis@.len() && opening_holds(
            p_comm@,
            s_comm@,
            blinded_poly@,
            curve_points(basis@),
            rand@,
            h@,
            p_x@,
            s_b@,
            iota@,
        )),
{
    if basis.len() == 0 {
        return false;
    }
    let left = g1_add(g1_add(p_comm, g1_neg(g1_mul(basis[0], p_x))), g1_mul(s_comm, iota));
    match commit(blinded_poly, basis, fr_add(rand, fr_mul(iota, s_b)), h) {
        Ok(right) => left == right,
        Err(_) => false,
    }
}

} // verus!
