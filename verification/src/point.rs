//! Points of the group G1, held in affine form as canonical 64-bit limbs.

use ark_bls12_381::Fq;
use ark_bls12_381::G1Affine;
use ark_bls12_381::G1Projective;
use ark_ec::AffineCurve;
use ark_ec::ProjectiveCurve;
use ark_ff::BigInteger384;
use ark_ff::PrimeField;
use ark_ff::UniformRand;
use vstd::prelude::*;
use vstd::std_specs::cmp::PartialEqSpecImpl;
use crate::scalar::Scalar;
use crate::scalar::lemma_split_limb;

verus! {

/// Order of the base field of BLS12-381, over which the curve is defined.
pub open spec fn base_modulus() -> nat {
    4002409555221667393417789825735904156556882819939007885332058136124031650490837864442687629129015664037894272559787nat
}

/// The number that six little-endian 64-bit limbs stand for.
pub open spec fn limbs6_value(l: [u64; 6]) -> nat {
    (l[0] as nat) + (l[1] as nat) * 0x1_0000_0000_0000_0000nat + (l[2] as nat)
        * 0x1_0000_0000_0000_0000_0000_0000_0000_0000nat + (l[3] as nat)
        * 0x1_0000_0000_0000_0000_0000_0000_0000_0000_0000_0000_0000_0000nat + (l[4] as nat)
        * 0x1_0000_0000_0000_0000_0000_0000_0000_0000_0000_0000_0000_0000_0000_0000_0000_0000nat
        + (l[5] as nat)
        * 0x1_0000_0000_0000_0000_0000_0000_0000_0000_0000_0000_0000_0000_0000_0000_0000_0000_0000_0000_0000_0000nat
}

/// Two limb arrays with the same value are the same array.
pub proof fn lemma_limbs6_injective(a: [u64; 6], b: [u64; 6])
    requires
        limbs6_value(a) == limbs6_value(b),
    ensures
        a == b,
{
    let w: int = 0x1_0000_0000_0000_0000;
    let a4: int = a[4] as int + (a[5] as int) * w;
    let b4: int = b[4] as int + (b[5] as int) * w;
    let a3: int = a[3] as int + a4 * w;
    let b3: int = b[3] as int + b4 * w;
    let a2: int = a[2] as int + a3 * w;
    let b2: int = b[2] as int + b3 * w;
    let a1: int = a[1] as int + a2 * w;
    let b1: int = b[1] as int + b2 * w;
    assert(limbs6_value(a) == a[0] as int + a1 * w) by (nonlinear_arith)
        requires
            w == 0x1_0000_0000_0000_0000,
            a4 == a[4] as int + (a[5] as int) * w,
            a3 == a[3] as int + a4 * w,
            a2 == a[2] as int + a3 * w,
            a1 == a[1] as int + a2 * w,
            limbs6_value(a) == (a[0] as nat) + (a[1] as nat) * 0x1_0000_0000_0000_0000nat + (
            a[2] as nat) * 0x1_0000_0000_0000_0000_0000_0000_0000_0000nat + (a[3] as nat)
                * 0x1_0000_0000_0000_0000_0000_0000_0000_0000_0000_0000_0000_0000nat + (
            a[4] as nat)
                * 0x1_0000_0000_0000_0000_0000_0000_0000_0000_0000_0000_0000_0000_0000_0000_0000_0000nat
                + (a[5] as nat)
                * 0x1_0000_0000_0000_0000_0000_0000_0000_0000_0000_0000_0000_0000_0000_0000_0000_0000_0000_0000_0000_0000nat,
    ;
    assert(limbs6_value(b) == b[0] as int + b1 * w) by (nonlinear_arith)
        requires
            w == 0x1_0000_0000_0000_0000,
            b4 == b[4] as int + (b[5] as int) * w,
            b3 == b[3] as int + b4 * w,
            b2 == b[2] as int + b3 * w,
            b1 == b[1] as int + b2 * w,
            limbs6_value(b) == (b[0] as nat) + (b[1] as nat) * 0x1_0000_0000_0000_0000nat + (
            b[2] as nat) * 0x1_0000_0000_0000_0000_0000_0000_0000_0000nat + (b[3] as nat)
                * 0x1_0000_0000_0000_0000_0000_0000_0000_0000_0000_0000_0000_0000nat + (
            b[4] as nat)
                * 0x1_0000_0000_0000_0000_0000_0000_0000_0000_0000_0000_0000_0000_0000_0000_0000_0000nat
                + (b[5] as nat)
                * 0x1_0000_0000_0000_0000_0000_0000_0000_0000_0000_0000_0000_0000_0000_0000_0000_0000_0000_0000_0000_0000nat,
    ;
    lemma_split_limb(a[0] as int, a1, b[0] as int, b1);
    lemma_split_limb(a[1] as int, a2, b[1] as int, b2);
    lemma_split_limb(a[2] as int, a3, b[2] as int, b3);
    lemma_split_limb(a[3] as int, a4, b[3] as int, b4);
    lemma_split_limb(a[4] as int, a[5] as int, b[4] as int, b[5] as int);
    assert(a@ =~= b@);
}

/// A point in affine coordinates: two numbers below the base field's
/// order, or the point at infinity.
pub struct CurvePoint {
    pub x: nat,
    pub y: nat,
    pub infinity: bool,
}

/// The point at infinity, the identity of the group.
pub open spec fn identity() -> CurvePoint {
    CurvePoint { x: 0, y: 1, infinity: true }
}

/// The coordinates are reduced, and the point at infinity is written in
/// one way only.
pub open spec fn canonical(p: CurvePoint) -> bool {
    &&& p.x < base_modulus()
    &&& p.y < base_modulus()
    &&& p.infinity ==> p == identity()
}

/// The affine form of the sum that addition of `ark_ec`'s
/// `GroupProjective` computes for two points, neither of them the point at
/// infinity.
pub uninterp spec fn g1_sum(p: CurvePoint, q: CurvePoint) -> CurvePoint;

/// The affine form of the multiple that `ark_ec::AffineCurve::mul`
/// computes for a point other than the point at infinity and a factor above
/// one.
pub uninterp spec fn g1_product(p: CurvePoint, k: nat) -> CurvePoint;

/// Sum of two points.
pub open spec fn curve_add(p: CurvePoint, q: CurvePoint) -> CurvePoint {
    if p.infinity {
        q
    } else if q.infinity {
        p
    } else {
        g1_sum(p, q)
    }
}

/// The opposite point: the same abscissa, the ordinate negated in the base
/// field.
pub open spec fn curve_neg(p: CurvePoint) -> CurvePoint {
    if p.infinity {
        p
    } else {
        CurvePoint {
            x: p.x,
            y: ((base_modulus() - p.y) % (base_modulus() as int)) as nat,
            infinity: false,
        }
    }
}

/// The multiple of a point by a number.
pub open spec fn curve_mul(p: CurvePoint, k: nat) -> CurvePoint {
    if p.infinity || k == 0 {
        identity()
    } else if k == 1 {
        p
    } else {
        g1_product(p, k)
    }
}

/// Difference of two points.
pub open spec fn curve_sub(p: CurvePoint, q: CurvePoint) -> CurvePoint {
    curve_add(p, curve_neg(q))
}

/// A point of the curve group.
#[derive(Clone, Copy, Debug)]
pub struct Point {
    x: [u64; 6],
    y: [u64; 6],
    infinity: bool,
}

impl View for Point {
    type V = CurvePoint;

    closed spec fn view(&self) -> CurvePoint {
        CurvePoint { x: limbs6_value(self.x), y: limbs6_value(self.y), infinity: self.infinity }
    }
}

/// Whether six limbs stand for a number below the base field's order.
fn below_base_modulus(l: &[u64; 6]) -> (r: bool)
    ensures
        r == (limbs6_value(*l) < base_modulus()),
{
    let l0: u64 = l[0];
    let l1: u64 = l[1];
    let l2: u64 = l[2];
    let l3: u64 = l[3];
    let l4: u64 = l[4];
    let l5: u64 = l[5];
    l5 < 0x1a0111ea397fe69a || (l5 == 0x1a0111ea397fe69a && (l4 < 0x4b1ba7b6434bacd7 || (l4
        == 0x4b1ba7b6434bacd7 && (l3 < 0x64774b84f38512bf || (l3 == 0x64774b84f38512bf && (l2
        < 0x6730d2a0f6b0f624 || (l2 == 0x6730d2a0f6b0f624 && (l1 < 0x1eabfffeb153ffff || (l1
        == 0x1eabfffeb153ffff && l0 < 0xb9feffffffffaaab)))))))))
}

/// Whether two limb arrays are the same.
fn same_limbs(a: &[u64; 6], b: &[u64; 6]) -> (r: bool)
    ensures
        r == (limbs6_value(*a) == limbs6_value(*b)),
{
    proof {
        if limbs6_value(*a) == limbs6_value(*b) {
            lemma_limbs6_injective(*a, *b);
        }
    }
    a[0] == b[0] && a[1] == b[1] && a[2] == b[2] && a[3] == b[3] && a[4] == b[4] && a[5] == b[5]
}

impl PartialEq for Point {
    fn eq(&self, other: &Self) -> (r: bool) {
        same_limbs(&self.x, &other.x) && same_limbs(&self.y, &other.y) && self.infinity
            == other.infinity
    }
}

impl PartialEqSpecImpl for Point {
    open spec fn obeys_eq_spec() -> bool {
        true
    }

    open spec fn eq_spec(&self, other: &Self) -> bool {
        self@ == other@
    }
}

impl Point {
    /// Every point is held in canonical form.
    #[verifier::type_invariant]
    pub open spec fn well_formed(self) -> bool {
        canonical(self@)
    }

    /// The coordinates tell the point: two points with the same
    /// coordinates are the same point.
    pub proof fn lemma_view_injective(self, other: Point)
        requires
            self@ == other@,
        ensures
            self == other,
    {
        lemma_limbs6_injective(self.x, other.x);
        lemma_limbs6_injective(self.y, other.y);
    }

    /// The point at infinity.
    pub fn identity() -> (r: Point)
        ensures
            r@ == identity(),
    {
        Point { x: [0, 0, 0, 0, 0, 0], y: [1, 0, 0, 0, 0, 0], infinity: true }
    }

    /// The point with the given affine coordinates, as limbs with the
    /// little end first, if they are canonical.
    pub fn from_limbs(x: [u64; 6], y: [u64; 6], infinity: bool) -> (r: Option<Point>)
        ensures
            r is Some <==> canonical(
                CurvePoint { x: limbs6_value(x), y: limbs6_value(y), infinity },
            ),
            r matches Some(p) ==> p@ == (CurvePoint {
                x: limbs6_value(x),
                y: limbs6_value(y),
                infinity,
            }),
    {
        let zero: [u64; 6] = [0, 0, 0, 0, 0, 0];
        let one: [u64; 6] = [1, 0, 0, 0, 0, 0];
        if !below_base_modulus(&x) || !below_base_modulus(&y) {
            None
        } else if infinity && !(same_limbs(&x, &zero) && same_limbs(&y, &one)) {
            None
        } else {
            Some(Point { x, y, infinity })
        }
    }

    /// The limbs of the abscissa, little end first.
    pub fn x_limbs(&self) -> (r: [u64; 6])
        ensures
            limbs6_value(r) == self@.x,
    {
        self.x
    }

    /// The limbs of the ordinate, little end first.
    pub fn y_limbs(&self) -> (r: [u64; 6])
        ensures
            limbs6_value(r) == self@.y,
    {
        self.y
    }

    /// Whether this is the point at infinity.
    pub fn is_identity(&self) -> (r: bool)
        ensures
            r == self@.infinity,
    {
        self.infinity
    }
}

/// Point addition, done by `Add` of `ark_ec`'s `GroupProjective` on the
/// two points and brought back to affine form: the other point where one
/// is the point at infinity, else the sum that the curve arithmetic
/// computes.
#[verifier::external_body]
pub(crate) fn g1_add(p: Point, q: Point) -> (r: Point)
    ensures
        r@ == curve_add(p@, q@),
        !p@.infinity && !q@.infinity ==> r@ == g1_sum(p@, q@),
{
    let px = Fq::from_repr(BigInteger384(p.x)).unwrap();
    let py = Fq::from_repr(BigInteger384(p.y)).unwrap();
    let qx = Fq::from_repr(BigInteger384(q.x)).unwrap();
    let qy = Fq::from_repr(BigInteger384(q.y)).unwrap();
    let a = G1Affine::new(px, py, p.infinity).into_projective();
    let s = (a + G1Affine::new(qx, qy, q.infinity).into_projective()).into_affine();
    Point { x: s.x.into_repr().0, y: s.y.into_repr().0, infinity: s.infinity }
}

/// Point negation, done by `Neg` of `ark_ec`'s `GroupAffine`: the point at
/// infinity stays, any other point keeps its abscissa and has its ordinate
/// negated in the base field.
#[verifier::external_body]
pub(crate) fn g1_neg(p: Point) -> (r: Point)
    ensures
        r@ == curve_neg(p@),
{
    let px = Fq::from_repr(BigInteger384(p.x)).unwrap();
    let py = Fq::from_repr(BigInteger384(p.y)).unwrap();
    let s = -G1Affine::new(px, py, p.infinity);
    Point { x: s.x.into_repr().0, y: s.y.into_repr().0, infinity: s.infinity }
}

/// Scalar multiplication, done by `ark_ec::AffineCurve::mul` and brought
/// back to affine form: the point at infinity for the factor zero or the
/// point at infinity, the point itself for the factor one, else the
/// multiple that the curve arithmetic computes.
#[verifier::external_body]
pub(crate) fn g1_mul(p: Point, k: Scalar) -> (r: Point)
    ensures
        r@ == curve_mul(p@, k@),
        !p@.infinity && k@ > 1 ==> r@ == g1_product(p@, k@),
{
    let px = Fq::from_repr(BigInteger384(p.x)).unwrap();
    let py = Fq::from_repr(BigInteger384(p.y)).unwrap();
    let s = G1Affine::new(px, py, p.infinity).mul(ark_ff::BigInteger256(k.limbs())).into_affine();
    Point { x: s.x.into_repr().0, y: s.y.into_repr().0, infinity: s.infinity }
}

/// A point of the prime-order subgroup drawn by `ark_ff::UniformRand::rand`
/// for `G1Projective` from the thread's random generator. Nothing is
/// claimed of which point comes back.
#[verifier::external_body]
pub fn random_affine_point() -> (r: Point) {
    let s = G1Projective::rand(&mut rand::thread_rng()).into_affine();
    Point { x: s.x.into_repr().0, y: s.y.into_repr().0, infinity: s.infinity }
}

} // verus!
