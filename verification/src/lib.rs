//! A hiding polynomial commitment scheme over the group G1 of BLS12-381:
//! commitments to polynomials, blinding polynomials that vanish at a
//! challenge point, the direct opening check, and the folding of an opening
//! into logarithmically many points.
//!
//! Scalars and points are held as canonical limbs. The field and curve
//! arithmetic is done by the arkworks crates, behind the private functions
//! of `scalar`, `point` and `polynomial` whose contracts are taken on trust;
//! everything else is proved against them. `laws` states what holds of the
//! scheme.

pub mod algebra;
pub mod commitment;
pub mod error;
pub mod evaluation;
pub mod exponents;
pub mod factors;
pub mod field;
pub mod fold_sums;
pub mod folding;
pub mod group;
pub mod laws;
pub mod point;
pub mod polynomial;
pub mod scalar;
pub mod sums;
