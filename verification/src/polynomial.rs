//! Polynomials over the scalar field, in coefficient form.

use ark_bls12_381::Fr;
use ark_ff::BigInteger256;
use ark_ff::PrimeField;
use ark_poly::univariate::DensePolynomial;
use vstd::arithmetic::div_mod::lemma_small_mod;
use vstd::prelude::*;
use crate::algebra::values;
use crate::error::CommitmentError;
use crate::evaluation::lemma_blinding_polynomial_len;
use crate::field::fadd;
use crate::field::fmul;
use crate::field::fsub;
use crate::field::modulus;
use crate::laws::blinding_polynomial_vanishes;
use crate::scalar::Scalar;
use crate::scalar::fr_add;
use crate::scalar::fr_mul;
use crate::scalar::fr_sub;

verus! {

/// A sequence of coefficients without its trailing zeros.
pub open spec fn trim(c: Seq<nat>) -> Seq<nat>
    decreases c.len(),
{
    if c.len() > 0 && c.last() == 0 {
        trim(c.drop_last())
    } else {
        c
    }
}

/// The coefficient of `X^i`, zero beyond the end.
pub open spec fn coeff(c: Seq<nat>, i: int) -> nat {
    if 0 <= i < c.len() {
        c[i]
    } else {
        0
    }
}

/// The longer of two lengths.
pub open spec fn longer(m: nat, n: nat) -> nat {
    if m >= n {
        m
    } else {
        n
    }
}

/// Value of a polynomial at `x`.
pub open spec fn poly_eval(c: Seq<nat>, x: nat) -> nat
    decreases c.len(),
{
    if c.len() == 0 {
        0
    } else {
        fadd(c[0], fmul(x, poly_eval(c.drop_first(), x)))
    }
}

/// Sum of two polynomials, coefficient by coefficient.
pub open spec fn poly_add(a: Seq<nat>, b: Seq<nat>) -> Seq<nat> {
    Seq::new(longer(a.len(), b.len()), |i: int| fadd(coeff(a, i), coeff(b, i)))
}

/// Difference of two polynomials, coefficient by coefficient.
pub open spec fn poly_sub(a: Seq<nat>, b: Seq<nat>) -> Seq<nat> {
    Seq::new(longer(a.len(), b.len()), |i: int| fsub(coeff(a, i), coeff(b, i)))
}

/// A polynomial times a field element.
pub open spec fn poly_scale(a: Seq<nat>, k: nat) -> Seq<nat> {
    Seq::new(a.len(), |i: int| fmul(k, a[i]))
}

/// A polynomial times `X`.
pub open spec fn poly_shift(a: Seq<nat>) -> Seq<nat> {
    seq![0nat] + a
}

/// Product of two polynomials: `a[0] * b + X * (rest of a) * b`.
pub open spec fn poly_mul(a: Seq<nat>, b: Seq<nat>) -> Seq<nat>
    decreases a.len(),
{
    if a.len() == 0 {
        Seq::empty()
    } else {
        poly_add(poly_scale(b, a[0]), poly_shift(poly_mul(a.drop_first(), b)))
    }
}

/// Product of two polynomials held without trailing zeros, again without
/// trailing zeros; zero where one of them is zero.
pub open spec fn poly_product(a: Seq<nat>, b: Seq<nat>) -> Seq<nat> {
    if a.len() == 0 || b.len() == 0 {
        Seq::empty()
    } else {
        trim(poly_mul(a, b))
    }
}

/// A polynomial; the coefficient of `X^i` is at index `i`, and the last
/// coefficient is not zero.
#[derive(Debug)]
pub struct Polynomial {
    coeffs: Vec<Scalar>,
}

impl View for Polynomial {
    type V = Seq<nat>;

    closed spec fn view(&self) -> Seq<nat> {
        values(self.coeffs@)
    }
}

impl Clone for Polynomial {
    fn clone(&self) -> (r: Self)
        ensures
            r@ == self@,
    {
        let mut coeffs: Vec<Scalar> = Vec::new();
        let mut i: usize = 0;
        while i < self.coeffs.len()
            invariant
                i <= self.coeffs@.len(),
                coeffs@ == self.coeffs@.subrange(0, i as int),
            decreases self.coeffs@.len() - i,
        {
            coeffs.push(self.coeffs[i]);
            proof {
                assert(coeffs@ =~= self.coeffs@.subrange(0, i + 1));
            }
            i += 1;
        }
        proof {
            use_type_invariant(self);
            assert(coeffs@ =~= self.coeffs@);
        }
        Polynomial { coeffs }
    }
}

impl Polynomial {
    /// No polynomial ends in a zero coefficient.
    #[verifier::type_invariant]
    pub open spec fn trimmed(self) -> bool {
        self@.len() == 0 || self@.last() != 0
    }

    /// The polynomial with the given coefficients, trailing zeros dropped.
    pub fn from_coefficients_vec(coeffs: Vec<Scalar>) -> (r: Polynomial)
        ensures
            r@ == trim(values(coeffs@)),
    {
        let mut coeffs = coeffs;
        let ghost given = values(coeffs@);
        while coeffs.len() > 0 && coeffs[coeffs.len() - 1].is_zero()
            invariant
                trim(values(coeffs@)) == trim(given),
            decreases coeffs.len(),
        {
            proof {
                assert(values(coeffs@).drop_last() =~= values(coeffs@.drop_last()));
            }
            coeffs.pop();
        }
        Polynomial { coeffs }
    }

    /// The coefficients, lowest degree first.
    pub fn coeffs(&self) -> (r: &Vec<Scalar>)
        ensures
            values(r@) == self@,
    {
        &self.coeffs
    }

    /// The value of the polynomial at `x`.
    pub fn evaluate(&self, x: Scalar) -> (r: Scalar)
        ensures
            r@ == poly_eval(self@, x@),
    {
        let n: usize = self.coeffs.len();
        let mut acc = Scalar::zero();
        let mut i: usize = n;
        proof {
            assert(self@.subrange(n as int, n as int) =~= Seq::<nat>::empty());
        }
        while i > 0
            invariant
                i <= n,
                n == self.coeffs@.len(),
                acc@ == poly_eval(self@.subrange(i as int, n as int), x@),
            decreases i,
        {
            i -= 1;
            proof {
                let cur = self@.subrange(i as int, n as int);
                assert(cur.drop_first() =~= self@.subrange(i + 1, n as int));
                assert(cur[0] == self.coeffs@[i as int]@);
            }
            acc = fr_add(self.coeffs[i], fr_mul(x, acc));
        }
        proof {
            assert(self@.subrange(0, n as int) =~= self@);
        }
        acc
    }
}

/// Polynomial multiplication, done by `naive_mul` of `ark_poly`'s
/// `DensePolynomial`: the zero polynomial where a factor is zero, else the
/// product of the two without its trailing zero coefficients.
#[verifier::external_body]
pub(crate) fn poly_naive_mul(a: &Polynomial, b: &Polynomial) -> (r: Polynomial)
    ensures
        r@ == poly_product(a@, b@),
{
    let to_fr = |s: &Scalar| Fr::from_repr(BigInteger256(s.limbs())).unwrap();
    let x = DensePolynomial { coeffs: a.coeffs.iter().map(to_fr).collect() };
    let y = DensePolynomial { coeffs: b.coeffs.iter().map(to_fr).collect() };
    let from_fr = |f: &Fr| Scalar::from_limbs(f.into_repr().0).unwrap();
    Polynomial { coeffs: x.naive_mul(&y).coeffs.iter().map(from_fr).collect() }
}

/// The blinding polynomial `(X - x) * (b1 * X + b0) * public_poly`.
pub open spec fn blinding_polynomial(x: nat, b0: nat, b1: nat, public_poly: Seq<nat>) -> Seq<nat> {
    poly_product(poly_product(seq![fsub(0, x), 1nat], trim(seq![b0, b1])), public_poly)
}

/// Builds the polynomial `(X - x) * (b1 * X + b0) * public_poly`, which has
/// a root at `x`.
pub fn create_blinding_polynomial(
    x: Scalar,
    b0: Scalar,
    b1: Scalar,
    public_poly: &Polynomial,
) -> (r: Polynomial)
    ensures
        r@ == blinding_polynomial(x@, b0@, b1@, public_poly@),
        poly_eval(r@, x@) == 0,
        r@.len() <= public_poly@.len() + 2,
{
    proof {
        blinding_polynomial_vanishes(x@, b0@, b1@, public_poly@);
        lemma_blinding_polynomial_len(x@, b0@, b1@, public_poly@);
    }
    let minus_x = fr_sub(Scalar::zero(), x);
    let one = Scalar::one();
    let vanishing_factor = Polynomial::from_coefficients_vec(vec![minus_x, one]);
    let blinding_factor = Polynomial::from_coefficients_vec(vec![b0, b1]);
    proof {
        let v = seq![fsub(0, x@), 1nat];
        assert(values(seq![minus_x, one]) =~= v);
        assert(trim(v) == v);
        assert(values(seq![b0, b1]) =~= seq![b0@, b1@]);
    }
    let first = poly_naive_mul(&vanishing_factor, &blinding_factor);
    poly_naive_mul(&first, public_poly)
}

/// The blinded polynomial `p + iota * s - p_x`.
pub open spec fn blinded_polynomial(p: Seq<nat>, s: Seq<nat>, iota: nat, p_x: nat) -> Seq<nat> {
    trim(poly_sub(poly_add(p, poly_scale(s, iota)), seq![p_x]))
}

/// Blinds `p` with `s`: the polynomial `p + iota * s - p_x`. Fails where
/// `s` has not the degree of `p`.
pub fn blind_polynomial(p: &Polynomial, s: &Polynomial, iota: Scalar, p_x: Scalar) -> (r: Result<
    Polynomial,
    CommitmentError,
>)
    ensures
        p@.len() != s@.len() ==> r is Err && r->Err_0 == CommitmentError::InvalidDegree,
        p@.len() == s@.len() ==> r is Ok && r->Ok_0@ == blinded_polynomial(p@, s@, iota@, p_x@),
{
    let n: usize = p.coeffs.len();
    if s.coeffs.len() != n {
        return Err(CommitmentError::InvalidDegree);
    }
    let ghost target = poly_sub(poly_add(p@, poly_scale(s@, iota@)), seq![p_x@]);
    let mut out: Vec<Scalar> = Vec::new();
    if n == 0 {
        out.push(fr_sub(Scalar::zero(), p_x));
        proof {
            assert(values(out@) =~= target);
        }
        return Ok(Polynomial::from_coefficients_vec(out));
    }
    let mut i: usize = 0;
    while i < n
        invariant
            i <= n,
            n > 0,
            n == p.coeffs@.len(),
            n == s.coeffs@.len(),
            target == poly_sub(poly_add(p@, poly_scale(s@, iota@)), seq![p_x@]),
            out@.len() == i,
            forall|j: int| 0 <= j < i ==> out@[j]@ == #[trigger] target[j],
        decreases n - i,
    {
        let sum = fr_add(p.coeffs[i], fr_mul(iota, s.coeffs[i]));
        let c = if i == 0 {
            fr_sub(sum, p_x)
        } else {
            sum
        };
        proof {
            if i != 0 {
                lemma_small_mod(sum@, modulus());
            }
        }
        out.push(c);
        i += 1;
    }
    proof {
        assert(values(out@) =~= target);
    }
    Ok(Polynomial::from_coefficients_vec(out))
}

} // verus!
