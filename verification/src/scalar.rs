//! Elements of the scalar field, held as four canonical 64-bit limbs.

use ark_bls12_381::Fr;
use ark_ff::BigInteger256;
use ark_ff::Field;
use ark_ff::PrimeField;
use ark_ff::UniformRand;
use vstd::arithmetic::div_mod::lemma_fundamental_div_mod_converse;
use vstd::prelude::*;
use vstd::std_specs::cmp::PartialEqSpecImpl;
use crate::field::fadd;
use crate::field::fmul;
use crate::field::fsub;
use crate::field::is_inverse;
use crate::field::modulus;

verus! {

/// The number that four little-endian 64-bit limbs stand for.
pub open spec fn limbs4_value(l: [u64; 4]) -> nat {
    (l[0] as nat) + (l[1] as nat) * 0x1_0000_0000_0000_0000nat + (l[2] as nat)
        * 0x1_0000_0000_0000_0000_0000_0000_0000_0000nat + (l[3] as nat)
        * 0x1_0000_0000_0000_0000_0000_0000_0000_0000_0000_0000_0000_0000nat
}

/// A number below `2^64` plus a multiple of `2^64` determines both parts.
pub proof fn lemma_split_limb(lo1: int, hi1: int, lo2: int, hi2: int)
    requires
        0 <= lo1 < 0x1_0000_0000_0000_0000,
        0 <= lo2 < 0x1_0000_0000_0000_0000,
        lo1 + hi1 * 0x1_0000_0000_0000_0000 == lo2 + hi2 * 0x1_0000_0000_0000_0000,
    ensures
        lo1 == lo2,
        hi1 == hi2,
{
    let b: int = 0x1_0000_0000_0000_0000;
    let x: int = lo1 + hi1 * b;
    lemma_fundamental_div_mod_converse(x, b, hi1, lo1);
    lemma_fundamental_div_mod_converse(x, b, hi2, lo2);
}

/// Two limb arrays with the same value are the same array.
pub proof fn lemma_limbs4_injective(a: [u64; 4], b: [u64; 4])
    requires
        limbs4_value(a) == limbs4_value(b),
    ensures
        a == b,
{
    let w: int = 0x1_0000_0000_0000_0000;
    let a2: int = a[2] as int + (a[3] as int) * w;
    let b2: int = b[2] as int + (b[3] as int) * w;
    let a1: int = a[1] as int + a2 * w;
    let b1: int = b[1] as int + b2 * w;
    assert(limbs4_value(a) == a[0] as int + a1 * w) by (nonlinear_arith)
        requires
            w == 0x1_0000_0000_0000_0000,
            a2 == a[2] as int + (a[3] as int) * w,
            a1 == a[1] as int + a2 * w,
            limbs4_value(a) == (a[0] as nat) + (a[1] as nat) * 0x1_0000_0000_0000_0000nat + (
            a[2] as nat) * 0x1_0000_0000_0000_0000_0000_0000_0000_0000nat + (a[3] as nat)
                * 0x1_0000_0000_0000_0000_0000_0000_0000_0000_0000_0000_0000_0000nat,
    ;
    assert(limbs4_value(b) == b[0] as int + b1 * w) by (nonlinear_arith)
        requires
            w == 0x1_0000_0000_0000_0000,
            b2 == b[2] as int + (b[3] as int) * w,
            b1 == b[1] as int + b2 * w,
            limbs4_value(b) == (b[0] as nat) + (b[1] as nat) * 0x1_0000_0000_0000_0000nat + (
            b[2] as nat) * 0x1_0000_0000_0000_0000_0000_0000_0000_0000nat + (b[3] as nat)
                * 0x1_0000_0000_0000_0000_0000_0000_0000_0000_0000_0000_0000_0000nat,
    ;
    lemma_split_limb(a[0] as int, a1, b[0] as int, b1);
    lemma_split_limb(a[1] as int, a2, b[1] as int, b2);
    lemma_split_limb(a[2] as int, a[3] as int, b[2] as int, b[3] as int);
    assert(a@ =~= b@);
}

/// An element of the scalar field.
#[derive(Clone, Copy, Debug)]
pub struct Scalar {
    limbs: [u64; 4],
}

impl View for Scalar {
    type V = nat;

    closed spec fn view(&self) -> nat {
        limbs4_value(self.limbs)
    }
}

impl PartialEq for Scalar {
    fn eq(&self, other: &Self) -> (r: bool) {
        proof {
            if self@ == other@ {
                lemma_limbs4_injective(self.limbs, other.limbs);
            }
        }
        self.limbs[0] == other.limbs[0] && self.limbs[1] == other.limbs[1] && self.limbs[2]
            == other.limbs[2] && self.limbs[3] == other.limbs[3]
    }
}

impl PartialEqSpecImpl for Scalar {
    open spec fn obeys_eq_spec() -> bool {
        true
    }

    open spec fn eq_spec(&self, other: &Self) -> bool {
        self@ == other@
    }
}

impl Scalar {
    /// Every scalar is reduced modulo the field order.
    #[verifier::type_invariant]
    pub open spec fn reduced(self) -> bool {
        self@ < modulus()
    }

    /// The value tells the scalar: two scalars with the same value are the
    /// same scalar.
    pub proof fn lemma_view_injective(self, other: Scalar)
        requires
            self@ == other@,
        ensures
            self == other,
    {
        lemma_limbs4_injective(self.limbs, other.limbs);
    }

    /// The scalar with the given small value.
    pub fn from_u64(x: u64) -> (r: Scalar)
        ensures
            r@ == x as nat,
    {
        Scalar { limbs: [x, 0, 0, 0] }
    }

    /// The additive identity.
    pub fn zero() -> (r: Scalar)
        ensures
            r@ == 0,
    {
        Scalar { limbs: [0, 0, 0, 0] }
    }

    /// The multiplicative identity.
    pub fn one() -> (r: Scalar)
        ensures
            r@ == 1,
    {
        Scalar { limbs: [1, 0, 0, 0] }
    }

    /// The scalar that the limbs stand for, little end first, if they are
    /// below the field order.
    pub fn from_limbs(limbs: [u64; 4]) -> (r: Option<Scalar>)
        ensures
            r is Some <==> limbs4_value(limbs) < modulus(),
            r matches Some(s) ==> s@ == limbs4_value(limbs),
    {
        let l0: u64 = limbs[0];
        let l1: u64 = limbs[1];
        let l2: u64 = limbs[2];
        let l3: u64 = limbs[3];
        let below = l3 < 0x73eda753299d7d48 || (l3 == 0x73eda753299d7d48 && (l2
            < 0x3339d80809a1d805 || (l2 == 0x3339d80809a1d805 && (l1 < 0x53bda402fffe5bfe || (l1
            == 0x53bda402fffe5bfe && l0 < 0xffffffff00000001)))));
        if below {
            Some(Scalar { limbs })
        } else {
            None
        }
    }

    /// The canonical limbs, little end first.
    pub fn limbs(&self) -> (r: [u64; 4])
        ensures
            limbs4_value(r) == self@,
    {
        self.limbs
    }

    /// Whether this is the additive identity.
    pub fn is_zero(&self) -> (r: bool)
        ensures
            r == (self@ == 0),
    {
        self.limbs[0] == 0 && self.limbs[1] == 0 && self.limbs[2] == 0 && self.limbs[3] == 0
    }
}

/// Field addition, done by `Add` of `ark_ff::Fp256`: the sum of the two
/// values modulo the field order.
#[verifier::external_body]
pub(crate) fn fr_add(a: Scalar, b: Scalar) -> (r: Scalar)
    ensures
        r@ == fadd(a@, b@),
{
    let x = Fr::from_repr(BigInteger256(a.limbs)).unwrap();
    let y = Fr::from_repr(BigInteger256(b.limbs)).unwrap();
    Scalar { limbs: (x + y).into_repr().0 }
}

/// Field subtraction, done by `Sub` of `ark_ff::Fp256`: the difference of
/// the two values modulo the field order.
#[verifier::external_body]
pub(crate) fn fr_sub(a: Scalar, b: Scalar) -> (r: Scalar)
    ensures
        r@ == fsub(a@, b@),
{
    let x = Fr::from_repr(BigInteger256(a.limbs)).unwrap();
    let y = Fr::from_repr(BigInteger256(b.limbs)).unwrap();
    Scalar { limbs: (x - y).into_repr().0 }
}

/// Field multiplication, done by `Mul` of `ark_ff::Fp256`: the product of
/// the two values modulo the field order.
#[verifier::external_body]
pub(crate) fn fr_mul(a: Scalar, b: Scalar) -> (r: Scalar)
    ensures
        r@ == fmul(a@, b@),
{
    let x = Fr::from_repr(BigInteger256(a.limbs)).unwrap();
    let y = Fr::from_repr(BigInteger256(b.limbs)).unwrap();
    Scalar { limbs: (x * y).into_repr().0 }
}

/// Field inversion, done by `ark_ff::Field::inverse`: nothing for zero, and
/// for any other value the reduced value whose product with it is one.
#[verifier::external_body]
pub(crate) fn fr_inverse(a: Scalar) -> (r: Option<Scalar>)
    ensures
        r is None <==> a@ == 0,
        r matches Some(i) ==> is_inverse(a@, i@),
{
    match Fr::from_repr(BigInteger256(a.limbs)).unwrap().inverse() {
        Some(i) => Some(Scalar { limbs: i.into_repr().0 }),
        None => None,
    }
}

/// A scalar drawn by `ark_ff::UniformRand::rand` from the thread's random
/// generator. Nothing is claimed of which scalar comes back.
#[verifier::external_body]
pub(crate) fn fr_random() -> (r: Scalar) {
    Scalar { limbs: Fr::rand(&mut rand::thread_rng()).into_repr().0 }
}

} // verus!
