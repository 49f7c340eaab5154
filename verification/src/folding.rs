//! Folding of an opening into logarithmically many points.

use vstd::arithmetic::power2::lemma_pow2_pos;
use vstd::arithmetic::power2::lemma_pow2_strictly_increases;
use vstd::arithmetic::power2::lemma_pow2_unfold;
use vstd::arithmetic::power2::pow2;
use vstd::prelude::*;
use crate::algebra::all_invertible;
use crate::algebra::curve_points;
use crate::algebra::inner_product;
use crate::algebra::inverses;
use crate::algebra::msm;
use crate::algebra::values;
use crate::commitment::inner_product_field;
use crate::commitment::inner_product_group;
use crate::error::CommitmentError;
use crate::field::fadd;
use crate::field::finv;
use crate::field::fmul;
use crate::field::fsub;
use crate::field::is_inverse;
use crate::field::lemma_inverse_unique;
use crate::point::CurvePoint;
use crate::point::Point;
use crate::point::curve_add;
use crate::point::curve_mul;
use crate::point::curve_sub;
use crate::point::g1_add;
use crate::point::g1_mul;
use crate::point::g1_neg;
use crate::polynomial::Polynomial;
use crate::scalar::Scalar;
use crate::scalar::fr_add;
use crate::scalar::fr_inverse;
use crate::scalar::fr_mul;
use crate::scalar::fr_random;
use crate::scalar::fr_sub;

verus! {

/// Each element times `k`.
pub open spec fn scale_all(s: Seq<nat>, k: nat) -> Seq<nat> {
    Seq::new(s.len(), |i: int| fmul(k, s[i]))
}

/// The challenge basis: start from `[1]`, and for each challenge in turn
/// append to the sequence a copy of itself times that challenge. The element
/// at index `i` is the product of the challenges whose bit is set in `i`.
pub open spec fn challenge_basis_spec(u: Seq<nat>) -> Seq<nat>
    decreases u.len(),
{
    if u.len() == 0 {
        seq![1nat]
    } else {
        let prev = challenge_basis_spec(u.drop_last());
        prev + scale_all(prev, u.last())
    }
}

/// Whether the bit of weight `2^j` is set in `i`.
pub open spec fn bit_set(i: nat, j: nat) -> bool {
    (i / pow2(j)) % 2 == 1
}

/// The product of the challenges whose bit is set in `i`, the highest
/// challenge first; a bit that is not set contributes nothing.
pub open spec fn bit_product(u: Seq<nat>, i: nat) -> nat
    decreases u.len(),
{
    if u.len() == 0 {
        1
    } else {
        let top = (u.len() - 1) as nat;
        let below = bit_product(u.drop_last(), i % pow2(top));
        if bit_set(i, top) {
            fmul(u.last(), below)
        } else {
            below
        }
    }
}

/// The challenge basis of `k` challenges has `2^k` elements.
pub proof fn lemma_challenge_basis_len(u: Seq<nat>)
    ensures
        challenge_basis_spec(u).len() == pow2(u.len()),
    decreases u.len(),
{
    if u.len() == 0 {
        vstd::arithmetic::power2::lemma2_to64();
    } else {
        lemma_challenge_basis_len(u.drop_last());
        lemma_pow2_unfold(u.len());
    }
}

/// Expands challenges into the challenge basis by binary counting.
pub fn challenge_basis(u: &Vec<Scalar>) -> (r: Vec<Scalar>)
    ensures
        values(r@) == challenge_basis_spec(values(u@)),
{
    let mut basis: Vec<Scalar> = Vec::new();
    basis.push(Scalar::one());
    let mut j: usize = 0;
    proof {
        assert(values(u@).take(0) =~= Seq::<nat>::empty());
        assert(values(basis@) =~= seq![1nat]);
    }
    while j < u.len()
        invariant
            j <= u@.len(),
            values(basis@) == challenge_basis_spec(values(u@).take(j as int)),
        decreases u@.len() - j,
    {
        let ui = u[j];
        let m: usize = basis.len();
        let ghost prev = values(basis@);
        let mut i: usize = 0;
        while i < m
            invariant
                i <= m,
                basis@.len() == m + i,
                prev.len() == m,
                values(basis@) == prev + scale_all(prev, ui@).take(i as int),
            decreases m - i,
        {
            let scaled = fr_mul(ui, basis[i]);
            proof {
                assert(values(basis@)[i as int] == prev[i as int]);
                assert(scaled@ == scale_all(prev, ui@)[i as int]);
                assert(values(basis@.push(scaled)) =~= values(basis@).push(scaled@));
                assert(values(basis@).push(scaled@) =~= prev + scale_all(prev, ui@).take(i + 1));
            }
            basis.push(scaled);
            i += 1;
        }
        proof {
            assert(scale_all(prev, ui@).take(m as int) =~= scale_all(prev, ui@));
            assert(values(u@).take(j + 1).drop_last() =~= values(u@).take(j as int));
            assert(values(u@).take(j + 1).last() == ui@);
        }
        j += 1;
    }
    proof {
        assert(values(u@).take(u@.len() as int) =~= values(u@));
    }
    basis
}

/// The first half of a sequence.
pub open spec fn lower<T>(s: Seq<T>) -> Seq<T> {
    s.subrange(0, s.len() as int / 2)
}

/// The second half of a sequence of even length.
pub open spec fn upper<T>(s: Seq<T>) -> Seq<T> {
    s.subrange(s.len() as int / 2, s.len() as int)
}

/// One fold of a vector of field elements: each element of the lower half
/// plus `w` times the element of the upper half at the same place.
pub open spec fn fold_scalars(s: Seq<nat>, w: nat) -> Seq<nat> {
    Seq::new(s.len() / 2, |i: int| fadd(s[i], fmul(w, s[i + s.len() / 2])))
}

/// One fold of a vector of points: each point of the lower half plus `w`
/// times the point of the upper half at the same place.
pub open spec fn fold_points(g: Seq<CurvePoint>, w: nat) -> Seq<CurvePoint> {
    Seq::new(g.len() / 2, |i: int| curve_add(g[i], curve_mul(g[i + g.len() / 2], w)))
}

/// A vector of field elements after `t` folds; the folds take the weights
/// from the last one down.
pub open spec fn folded_scalars(s: Seq<nat>, w: Seq<nat>, t: nat) -> Seq<nat>
    decreases t,
{
    if t == 0 {
        s
    } else {
        fold_scalars(folded_scalars(s, w, (t - 1) as nat), w[w.len() - t])
    }
}

/// A vector of points after `t` folds; the folds take the weights from the
/// last one down.
pub open spec fn folded_points(g: Seq<CurvePoint>, w: Seq<nat>, t: nat) -> Seq<CurvePoint>
    decreases t,
{
    if t == 0 {
        g
    } else {
        fold_points(folded_points(g, w, (t - 1) as nat), w[w.len() - t])
    }
}

/// A cross-term commitment: the inner product of `a` with `g`, plus the
/// cross-term generator times `z * <a, b>`, plus the blinding generator times
/// the blinding scalar.
pub open spec fn cross_commitment(
    a: Seq<nat>,
    g: Seq<CurvePoint>,
    b: Seq<nat>,
    big_h: CurvePoint,
    big_u: CurvePoint,
    z: nat,
    blinder: nat,
) -> CurvePoint {
    curve_add(
        curve_add(msm(a, g), curve_mul(big_u, fmul(z, inner_product(a, b)))),
        curve_mul(big_h, blinder),
    )
}

/// The commitment `L[j]` of round `j`, made from the vectors as they stand
/// after the rounds above `j`: the upper half of `a` against the lower
/// halves of `g` and `b`.
pub open spec fn left_commitment(
    a: Seq<nat>,
    b: Seq<nat>,
    g: Seq<CurvePoint>,
    u: Seq<nat>,
    big_h: CurvePoint,
    big_u: CurvePoint,
    z: nat,
    l: Seq<nat>,
    j: int,
) -> CurvePoint {
    let t = (u.len() - 1 - j) as nat;
    cross_commitment(
        upper(folded_scalars(a, inverses(u), t)),
        lower(folded_points(g, u, t)),
        lower(folded_scalars(b, u, t)),
        big_h,
        big_u,
        z,
        l[j],
    )
}

/// The commitment `R[j]` of round `j`, made from the vectors as they stand
/// after the rounds above `j`: the lower half of `a` against the upper
/// halves of `g` and `b`.
pub open spec fn right_commitment(
    a: Seq<nat>,
    b: Seq<nat>,
    g: Seq<CurvePoint>,
    u: Seq<nat>,
    big_h: CurvePoint,
    big_u: CurvePoint,
    z: nat,
    r: Seq<nat>,
    j: int,
) -> CurvePoint {
    let t = (u.len() - 1 - j) as nat;
    cross_commitment(
        lower(folded_scalars(a, inverses(u), t)),
        upper(folded_points(g, u, t)),
        upper(folded_scalars(b, u, t)),
        big_h,
        big_u,
        z,
        r[j],
    )
}

/// The carried blinding scalar after the `t` highest rounds: `base` plus
/// `l[j] / u[j] + r[j] * u[j]` for each of them.
pub open spec fn blind_after(base: nat, l: Seq<nat>, r: Seq<nat>, u: Seq<nat>, t: nat) -> nat
    decreases t,
{
    if t == 0 {
        base
    } else {
        let j = u.len() - t;
        fadd(
            blind_after(base, l, r, u, (t - 1) as nat),
            fadd(fmul(l[j], finv(u[j])), fmul(r[j], u[j])),
        )
    }
}

/// The compressed commitment: `g` folded by the challenge basis, times `a`
/// folded by the inverse challenge basis.
pub open spec fn compressed_commitment(a: Seq<nat>, g: Seq<CurvePoint>, u: Seq<nat>) -> CurvePoint {
    curve_mul(
        msm(challenge_basis_spec(u), g),
        inner_product(a, challenge_basis_spec(inverses(u))),
    )
}

/// The three vectors have one length, the power of two whose exponent is
/// the number of challenges, and there is one blinding scalar of each kind
/// for each challenge.
pub open spec fn lengths_agree(a: nat, b: nat, g: nat, u: nat, l: nat, r: nat) -> bool {
    a == b && a == g && a == pow2(u) && l == u && r == u
}

/// One of the elements is zero.
pub open spec fn has_zero(s: Seq<nat>) -> bool {
    exists|i: int| 0 <= i < s.len() && s[i] == 0
}

/// Whether `n` is two to the power `k`.
fn is_power_of_two(n: usize, k: usize) -> (r: bool)
    ensures
        r == (n == pow2(k as nat)),
{
    proof {
        vstd::arithmetic::power2::lemma2_to64();
        lemma_pow2_pos(k as nat);
    }
    if n == 0 {
        return false;
    }
    let mut p: usize = 1;
    let mut j: usize = 0;
    while j < k
        invariant
            j <= k,
            p == pow2(j as nat),
            p <= n,
        decreases k - j,
    {
        proof {
            lemma_pow2_unfold((j + 1) as nat);
            if j + 1 < k {
                lemma_pow2_strictly_increases((j + 1) as nat, k as nat);
            }
        }
        if p > n / 2 {
            return false;
        }
        p = 2 * p;
        j += 1;
    }
    p == n
}

/// The elements from `from` up to `to`.
fn sub_vec<T: Copy>(v: &Vec<T>, from: usize, to: usize) -> (r: Vec<T>)
    requires
        from <= to <= v@.len(),
    ensures
        r@ == v@.subrange(from as int, to as int),
{
    let mut out: Vec<T> = Vec::new();
    let mut i: usize = from;
    while i < to
        invariant
            from <= i <= to,
            to <= v@.len(),
            out@ == v@.subrange(from as int, i as int),
        decreases to - i,
    {
        out.push(v[i]);
        proof {
            assert(out@ =~= v@.subrange(from as int, i + 1));
        }
        i += 1;
    }
    out
}

/// Folds a vector of field elements once with the weight `w`.
fn fold_scalar_vec(v: &Vec<Scalar>, w: Scalar) -> (r: Vec<Scalar>)
    ensures
        r@.len() == v@.len() / 2,
        values(r@) == fold_scalars(values(v@), w@),
{
    let half: usize = v.len() / 2;
    let mut out: Vec<Scalar> = Vec::new();
    let mut i: usize = 0;
    while i < half
        invariant
            i <= half,
            half == v@.len() / 2,
            v@.len() <= usize::MAX,
            out@.len() == i,
            forall|j: int| 0 <= j < i ==> out@[j]@ == #[trigger] fold_scalars(values(v@), w@)[j],
        decreases half - i,
    {
        out.push(fr_add(v[i], fr_mul(w, v[i + half])));
        i += 1;
    }
    proof {
        assert(values(out@) =~= fold_scalars(values(v@), w@));
    }
    out
}

/// Folds a vector of points once with the weight `w`.
fn fold_point_vec(v: &Vec<Point>, w: Scalar) -> (r: Vec<Point>)
    ensures
        r@.len() == v@.len() / 2,
        curve_points(r@) == fold_points(curve_points(v@), w@),
{
    let half: usize = v.len() / 2;
    let mut out: Vec<Point> = Vec::new();
    let mut i: usize = 0;
    while i < half
        invariant
            i <= half,
            half == v@.len() / 2,
            v@.len() <= usize::MAX,
            out@.len() == i,
            forall|j: int|
                0 <= j < i ==> out@[j]@ == #[trigger] fold_points(curve_points(v@), w@)[j],
        decreases half - i,
    {
        out.push(g1_add(v[i], g1_mul(v[i + half], w)));
        i += 1;
    }
    proof {
        assert(curve_points(out@) =~= fold_points(curve_points(v@), w@));
    }
    out
}

/// The inverse of each element, or nothing where one of them is zero.
fn invert_all(u: &Vec<Scalar>) -> (r: Option<Vec<Scalar>>)
    ensures
        r is None <==> has_zero(values(u@)),
        r matches Some(v) ==> values(v@) == inverses(values(u@)) && all_invertible(values(u@)),
{
    let mut out: Vec<Scalar> = Vec::new();
    let mut i: usize = 0;
    while i < u.len()
        invariant
            i <= u@.len(),
            out@.len() == i,
            forall|j: int| 0 <= j < i ==> values(u@)[j] != 0,
            forall|j: int| 0 <= j < i ==> out@[j]@ == finv(#[trigger] values(u@)[j]),
            forall|j: int|
                0 <= j < i ==> is_inverse(#[trigger] values(u@)[j], finv(values(u@)[j])),
        decreases u@.len() - i,
    {
        match fr_inverse(u[i]) {
            None => {
                proof {
                    assert(values(u@)[i as int] == 0);
                }
                return None;
            },
            Some(inv) => {
                proof {
                    lemma_inverse_unique(u@[i as int]@, inv@);
                }
                out.push(inv);
            },
        }
        i += 1;
    }
    proof {
        assert(values(out@) =~= inverses(values(u@)));
    }
    Some(out)
}

/// A cross-term commitment over the given parts of the vectors.
fn commit_cross_term(
    a: &Vec<Scalar>,
    g: &Vec<Point>,
    b: &Vec<Scalar>,
    big_h: Point,
    big_u: Point,
    z: Scalar,
    blinder: Scalar,
) -> (r: Point)
    ensures
        r@ == cross_commitment(
            values(a@),
            curve_points(g@),
            values(b@),
            big_h@,
            big_u@,
            z@,
            blinder@,
        ),
{
    let group_part = inner_product_group(a, g.as_slice());
    let cross_part = g1_mul(big_u, fr_mul(z, inner_product_field(a, b)));
    g1_add(g1_add(group_part, cross_part), g1_mul(big_h, blinder))
}

/// What a concentration gives: the compressed commitment, the commitments
/// `L` and `R` of the rounds, the blinding scalars `l` and `r` of the rounds,
/// and the carried blinding scalar.
pub type Concentration = (Point, Vec<Point>, Vec<Point>, Vec<Scalar>, Vec<Scalar>, Scalar);

/// What a concentration of the given inputs with the blinding scalars `l`
/// and `r` consists of: the compressed commitment, the commitments of each
/// round, and the carried blinding scalar.
pub open spec fn is_concentration(
    compressed: CurvePoint,
    big_l: Seq<CurvePoint>,
    big_r: Seq<CurvePoint>,
    blind: nat,
    a: Seq<nat>,
    b: Seq<nat>,
    g: Seq<CurvePoint>,
    u: Seq<nat>,
    big_h: CurvePoint,
    big_u: CurvePoint,
    z: nat,
    rand: nat,
    s_b: nat,
    iota: nat,
    l: Seq<nat>,
    r: Seq<nat>,
) -> bool {
    &&& compressed == compressed_commitment(a, g, u)
    &&& big_l.len() == u.len()
    &&& big_r.len() == u.len()
    &&& forall|j: int|
        0 <= j < u.len() ==> #[trigger] big_l[j] == left_commitment(
            a,
            b,
            g,
            u,
            big_h,
            big_u,
            z,
            l,
            j,
        )
    &&& forall|j: int|
        0 <= j < u.len() ==> #[trigger] big_r[j] == right_commitment(
            a,
            b,
            g,
            u,
            big_h,
            big_u,
            z,
            r,
            j,
        )
    &&& blind == blind_after(fadd(rand, fmul(s_b, iota)), l, r, u, u.len())
}

/// Concentrates the three vectors `a`, `b` and `g` into one element each,
/// with the blinding scalars of the rounds given by the caller.
///
/// The compressed commitment is `<basis(u), g>` times `<a, basis(1 / u)>`.
/// Round `j`, from the highest down, commits to the two cross terms of the
/// halves of the vectors as they stand, adds `l[j] / u[j] + r[j] * u[j]` to
/// the carried blinding scalar, and folds the vectors: `a` with `1 / u[j]`,
/// `b` and `g` with `u[j]`.
///
/// Fails with `LengthMismatch` unless `a`, `b` and `g` have one length, two
/// to the number of challenges, and `l` and `r` hold one scalar for each
/// challenge; else with `DivisionByZero` where a challenge is zero.
pub fn concentrate_with_blinders(
    a_poly: &Polynomial,
    b: &Vec<Scalar>,
    g: &Vec<Point>,
    u: &Vec<Scalar>,
    big_h: Point,
    big_u: Point,
    z: Scalar,
    rand: Scalar,
    s_b: Scalar,
    iota: Scalar,
    l: &Vec<Scalar>,
    r: &Vec<Scalar>,
) -> (out: Result<Concentration, CommitmentError>)
    ensures
        !lengths_agree(a_poly@.len(), b@.len(), g@.len(), u@.len(), l@.len(), r@.len()) ==> out
            is Err && out->Err_0 == CommitmentError::LengthMismatch,
        lengths_agree(a_poly@.len(), b@.len(), g@.len(), u@.len(), l@.len(), r@.len())
            && has_zero(values(u@)) ==> out is Err && out->Err_0
            == CommitmentError::DivisionByZero,
        lengths_agree(a_poly@.len(), b@.len(), g@.len(), u@.len(), l@.len(), r@.len())
            && !has_zero(values(u@)) ==> out is Ok && out->Ok_0.3@ == l@ && out->Ok_0.4@ == r@
            && all_invertible(values(u@)) && is_concentration(
            out->Ok_0.0@,
            curve_points(out->Ok_0.1@),
            curve_points(out->Ok_0.2@),
            out->Ok_0.5@,
            a_poly@,
            values(b@),
            curve_points(g@),
            values(u@),
            big_h@,
            big_u@,
            z@,
            rand@,
            s_b@,
            iota@,
            values(l@),
            values(r@),
        ),
{
    let a = a_poly.coeffs();
    let n: usize = a.len();
    let k: usize = u.len();
    if b.len() != n || g.len() != n || l.len() != k || r.len() != k || !is_power_of_two(n, k) {
        return Err(CommitmentError::LengthMismatch);
    }
    let u_inv = match invert_all(u) {
        None => {
            return Err(CommitmentError::DivisionByZero);
        },
        Some(v) => v,
    };
    let ghost av = values(a@);
    let ghost bv = values(b@);
    let ghost gv = curve_points(g@);
    let ghost uv = values(u@);
    let ghost lv = values(l@);
    let ghost rv = values(r@);
    let ghost base = fadd(rand@, fmul(s_b@, iota@));

    let basis = challenge_basis(u);
    let inverse_basis = challenge_basis(&u_inv);
    let a_res = inner_product_field(a, &inverse_basis);
    let g_res = inner_product_group(&basis, g.as_slice());
    let compressed = g1_mul(g_res, a_res);

    let mut big_l: Vec<Point> = Vec::new();
    let mut big_r: Vec<Point> = Vec::new();
    let mut i: usize = 0;
    while i < k
        invariant
            i <= k,
            big_l@.len() == i,
            big_r@.len() == i,
        decreases k - i,
    {
        big_l.push(Point::identity());
        big_r.push(Point::identity());
        i += 1;
    }
    let mut a_cur = sub_vec(a, 0, n);
    let mut b_cur = sub_vec(b, 0, n);
    let mut g_cur = sub_vec(g, 0, n);
    let mut blind = fr_add(rand, fr_mul(s_b, iota));
    let mut t: usize = 0;
    proof {
        assert(a_cur@ =~= a@);
        assert(b_cur@ =~= b@);
        assert(g_cur@ =~= g@);
    }
    while t < k
        invariant
            t <= k,
            k == u@.len(),
            uv == values(u@),
            lv == values(l@),
            rv == values(r@),
            values(u_inv@) == inverses(uv),
            l@.len() == k,
            r@.len() == k,
            big_l@.len() == k,
            big_r@.len() == k,
            a_cur@.len() == pow2((k - t) as nat),
            b_cur@.len() == a_cur@.len(),
            g_cur@.len() == a_cur@.len(),
            values(a_cur@) == folded_scalars(av, inverses(uv), t as nat),
            values(b_cur@) == folded_scalars(bv, uv, t as nat),
            curve_points(g_cur@) == folded_points(gv, uv, t as nat),
            forall|j: int|
                k - t <= j < k ==> #[trigger] curve_points(big_l@)[j] == left_commitment(
                    av,
                    bv,
                    gv,
                    uv,
                    big_h@,
                    big_u@,
                    z@,
                    lv,
                    j,
                ),
            forall|j: int|
                k - t <= j < k ==> #[trigger] curve_points(big_r@)[j] == right_commitment(
                    av,
                    bv,
                    gv,
                    uv,
                    big_h@,
                    big_u@,
                    z@,
                    rv,
                    j,
                ),
            blind@ == blind_after(base, lv, rv, uv, t as nat),
        decreases k - t,
    {
        let j: usize = k - 1 - t;
        let len: usize = a_cur.len();
        let size: usize = len / 2;
        proof {
            lemma_pow2_unfold((k - t) as nat);
            assert(inverses(uv).len() == k);
            assert(inverses(uv)[j as int] == finv(uv[j as int]));
            assert(values(u_inv@)[j as int] == u_inv@[j as int]@);
        }
        let a_lo = sub_vec(&a_cur, 0, size);
        let a_hi = sub_vec(&a_cur, size, len);
        let b_lo = sub_vec(&b_cur, 0, size);
        let b_hi = sub_vec(&b_cur, size, len);
        let g_lo = sub_vec(&g_cur, 0, size);
        let g_hi = sub_vec(&g_cur, size, len);
        proof {
            assert(values(a_lo@) =~= lower(values(a_cur@)));
            assert(values(a_hi@) =~= upper(values(a_cur@)));
            assert(values(b_lo@) =~= lower(values(b_cur@)));
            assert(values(b_hi@) =~= upper(values(b_cur@)));
            assert(curve_points(g_lo@) =~= lower(curve_points(g_cur@)));
            assert(curve_points(g_hi@) =~= upper(curve_points(g_cur@)));
        }
        let left = commit_cross_term(&a_hi, &g_lo, &b_lo, big_h, big_u, z, l[j]);
        let right = commit_cross_term(&a_lo, &g_hi, &b_hi, big_h, big_u, z, r[j]);
        let ghost old_l = curve_points(big_l@);
        let ghost old_r = curve_points(big_r@);
        big_l[j] = left;
        big_r[j] = right;
        blind = fr_add(blind, fr_add(fr_mul(l[j], u_inv[j]), fr_mul(r[j], u[j])));
        a_cur = fold_scalar_vec(&a_cur, u_inv[j]);
        b_cur = fold_scalar_vec(&b_cur, u[j]);
        g_cur = fold_point_vec(&g_cur, u[j]);
        proof {
            assert(lv[j as int] == l@[j as int]@);
            assert(rv[j as int] == r@[j as int]@);
            assert(uv[j as int] == u@[j as int]@);
            assert(curve_points(big_l@)[j as int] == left@);
            assert(curve_points(big_r@)[j as int] == right@);
            assert forall|i: int| k - (t + 1) <= i < k implies #[trigger] curve_points(big_l@)[i]
                == left_commitment(av, bv, gv, uv, big_h@, big_u@, z@, lv, i) by {
                if i != j {
                    assert(curve_points(big_l@)[i] == old_l[i]);
                }
            }
            assert forall|i: int| k - (t + 1) <= i < k implies #[trigger] curve_points(big_r@)[i]
                == right_commitment(av, bv, gv, uv, big_h@, big_u@, z@, rv, i) by {
                if i != j {
                    assert(curve_points(big_r@)[i] == old_r[i]);
                }
            }
        }
        t += 1;
    }
    proof {
        assert(curve_points(big_l@).len() == k);
        assert(curve_points(big_r@).len() == k);
    }
    let l_out = sub_vec(l, 0, k);
    let r_out = sub_vec(r, 0, k);
    proof {
        assert(l_out@ =~= l@);
        assert(r_out@ =~= r@);
    }
    Ok((compressed, big_l, big_r, l_out, r_out, blind))
}

/// As many scalars as asked for, each drawn independently.
fn random_scalars(n: usize) -> (r: Vec<Scalar>)
    ensures
        r@.len() == n,
{
    let mut out: Vec<Scalar> = Vec::new();
    let mut i: usize = 0;
    while i < n
        invariant
            i <= n,
            out@.len() == i,
        decreases n - i,
    {
        out.push(fr_random());
        i += 1;
    }
    out
}

/// Concentrates the three vectors `a`, `b` and `g` into one element each,
/// drawing two fresh blinding scalars for each round. The result holds the
/// compressed commitment, the commitments `L` and `R` of the rounds, the
/// blinding scalars `l` and `r` that were drawn, and the carried blinding
/// scalar; whatever was drawn, it is the concentration with those scalars.
///
/// Fails with `LengthMismatch` unless `a`, `b` and `g` have one length, two
/// to the number of challenges; else with `DivisionByZero` where a challenge
/// is zero.
pub fn concentrate(
    a_poly: &Polynomial,
    b: &Vec<Scalar>,
    g: &Vec<Point>,
    u: &Vec<Scalar>,
    big_h: Point,
    big_u: Point,
    z: Scalar,
    rand: Scalar,
    s_b: Scalar,
    iota: Scalar,
) -> (out: Result<Concentration, CommitmentError>)
    ensures
        !lengths_agree(a_poly@.len(), b@.len(), g@.len(), u@.len(), u@.len(), u@.len()) ==> out
            is Err && out->Err_0 == CommitmentError::LengthMismatch,
        lengths_agree(a_poly@.len(), b@.len(), g@.len(), u@.len(), u@.len(), u@.len())
            && has_zero(values(u@)) ==> out is Err && out->Err_0
            == CommitmentError::DivisionByZero,
        lengths_agree(a_poly@.len(), b@.len(), g@.len(), u@.len(), u@.len(), u@.len())
            && !has_zero(values(u@)) ==> out is Ok && out->Ok_0.3@.len() == u@.len()
            && out->Ok_0.4@.len() == u@.len() && all_invertible(values(u@)) && is_concentration(
            out->Ok_0.0@,
            curve_points(out->Ok_0.1@),
            curve_points(out->Ok_0.2@),
            out->Ok_0.5@,
            a_poly@,
            values(b@),
            curve_points(g@),
            values(u@),
            big_h@,
            big_u@,
            z@,
            rand@,
            s_b@,
            iota@,
            values(out->Ok_0.3@),
            values(out->Ok_0.4@),
        ),
{
    let l = random_scalars(u.len());
    let r = random_scalars(u.len());
    concentrate_with_blinders(a_poly, b, g, u, big_h, big_u, z, rand, s_b, iota, &l, &r)
}

/// The scalar that the cross-term generator carries through a
/// concentration: `z * (<a, basis(1 / u)> * <b, basis(u)> - <a, b>)`.
pub open spec fn cross_term(a: Seq<nat>, b: Seq<nat>, u: Seq<nat>, z: nat) -> nat {
    fmul(
        z,
        fsub(
            fmul(
                inner_product(a, challenge_basis_spec(inverses(u))),
                inner_product(b, challenge_basis_spec(u)),
            ),
            inner_product(a, b),
        ),
    )
}

/// Computes the scalar that the cross-term generator carries through a
/// concentration of `a` and `b` under the challenges `u`. Fails with
/// `DivisionByZero` where a challenge is zero.
pub fn folded_cross_term(a: &Vec<Scalar>, b: &Vec<Scalar>, u: &Vec<Scalar>, z: Scalar) -> (out:
    Result<Scalar, CommitmentError>)
    ensures
        has_zero(values(u@)) ==> out is Err && out->Err_0 == CommitmentError::DivisionByZero,
        !has_zero(values(u@)) ==> out is Ok && out->Ok_0@ == cross_term(
            values(a@),
            values(b@),
            values(u@),
            z@,
        ),
{
    let u_inv = match invert_all(u) {
        None => {
            return Err(CommitmentError::DivisionByZero);
        },
        Some(v) => v,
    };
    let basis = challenge_basis(u);
    let inverse_basis = challenge_basis(&u_inv);
    let a_res = inner_product_field(a, &inverse_basis);
    let b_res = inner_product_field(b, &basis);
    Ok(fr_mul(z, fr_sub(fr_mul(a_res, b_res), inner_product_field(a, b))))
}

/// The point that a concentration gives back: the compressed commitment,
/// plus the blinding generator times what the rounds added to the blinding
/// scalar, plus the cross-term generator times `cross`, less `<1 / u, L>` and
/// `<u, R>`.
pub open spec fn reconstruction(
    compressed: CurvePoint,
    big_l: Seq<CurvePoint>,
    big_r: Seq<CurvePoint>,
    u: Seq<nat>,
    big_h: CurvePoint,
    big_u: CurvePoint,
    blind: nat,
    rand: nat,
    s_b: nat,
    iota: nat,
    cross: nat,
) -> CurvePoint {
    curve_sub(
        curve_sub(
            curve_add(
                curve_add(
                    compressed,
                    curve_mul(big_h, fsub(fsub(blind, rand), fmul(iota, s_b))),
                ),
                curve_mul(big_u, cross),
            ),
            msm(inverses(u), big_l),
        ),
        msm(u, big_r),
    )
}

/// Recombines a concentration into the inner product of the coefficients
/// with the basis. Fails with `LengthMismatch` unless there is one `L` and
/// one `R` for each challenge; else with `DivisionByZero` where a challenge
/// is zero.
pub fn reconstruct(
    compressed: Point,
    big_l: &Vec<Point>,
    big_r: &Vec<Point>,
    u: &Vec<Scalar>,
    big_h: Point,
    big_u: Point,
    blind: Scalar,
    rand: Scalar,
    s_b: Scalar,
    iota: Scalar,
    cross: Scalar,
) -> (out: Result<Point, CommitmentError>)
    ensures
        !(big_l@.len() == u@.len() && big_r@.len() == u@.len()) ==> out is Err && out->Err_0
            == CommitmentError::LengthMismatch,
        big_l@.len() == u@.len() && big_r@.len() == u@.len() && has_zero(values(u@)) ==> out
            is Err && out->Err_0 == CommitmentError::DivisionByZero,
        big_l@.len() == u@.len() && big_r@.len() == u@.len() && !has_zero(values(u@)) ==> out
            is Ok && out->Ok_0@ == reconstruction(
            compressed@,
            curve_points(big_l@),
            curve_points(big_r@),
            values(u@),
            big_h@,
            big_u@,
            blind@,
            rand@,
            s_b@,
            iota@,
            cross@,
        ),
{
    if big_l.len() != u.len() || big_r.len() != u.len() {
        return Err(CommitmentError::LengthMismatch);
    }
    let u_inv = match invert_all(u) {
        None => {
            return Err(CommitmentError::DivisionByZero);
        },
        Some(v) => v,
    };
    let added = fr_sub(fr_sub(blind, rand), fr_mul(iota, s_b));
    let with_blind = g1_add(compressed, g1_mul(big_h, added));
    let with_cross = g1_add(with_blind, g1_mul(big_u, cross));
    let less_left = g1_add(with_cross, g1_neg(inner_product_group(&u_inv, big_l.as_slice())));
    Ok(g1_add(less_left, g1_neg(inner_product_group(u, big_r.as_slice()))))
}

/// Checks a concentration against the inner product `direct` that it
/// stands for. Fails as `reconstruct` does, and with `VerificationFailed`
/// where the recombined point is another one.
pub fn verify_reconstruction(
    direct: Point,
    compressed: Point,
    big_l: &Vec<Point>,
    big_r: &Vec<Point>,
    u: &Vec<Scalar>,
    big_h: Point,
    big_u: Point,
    blind: Scalar,
    rand: Scalar,
    s_b: Scalar,
    iota: Scalar,
    cross: Scalar,
) -> (out: Result<(), CommitmentError>)
    ensures
        !(big_l@.len() == u@.len() && big_r@.len() == u@.len()) ==> out is Err && out->Err_0
            == CommitmentError::LengthMismatch,
        big_l@.len() == u@.len() && big_r@.len() == u@.len() && has_zero(values(u@)) ==> out
            is Err && out->Err_0 == CommitmentError::DivisionByZero,
        big_l@.len() == u@.len() && big_r@.len() == u@.len() && !has_zero(values(u@)) ==> (out
            is Ok <==> direct@ == reconstruction(
            compressed@,
            curve_points(big_l@),
            curve_points(big_r@),
            values(u@),
            big_h@,
            big_u@,
            blind@,
            rand@,
            s_b@,
            iota@,
            cross@,
        )) && (out is Err ==> out->Err_0 == CommitmentError::VerificationFailed),
{
    match reconstruct(compressed, big_l, big_r, u, big_h, big_u, blind, rand, s_b, iota, cross) {
        Err(e) => Err(e),
        Ok(p) => {
            if p == direct {
                Ok(())
            } else {
                Err(CommitmentError::VerificationFailed)
            }
        },
    }
}

} // verus!
