//! Points of the Vesta curve, whose scalars are the field's elements, held
//! as their 32-byte compressed encoding.
//!
//! The group law is `halo2curves`'; its results are named, not computed here.

use crate::field::all_wf;
use crate::field::vals;
use crate::field::Fe;
use group::GroupEncoding;
use halo2curves::pasta::Fp;
use halo2curves::pasta::Vesta;
use halo2curves::pasta::VestaAffine;
use vstd::prelude::*;

verus! {

/// Whether the bytes are the compressed encoding of a point of the curve.
pub uninterp spec fn point_decodes(bytes: Seq<u8>) -> bool;

/// The encoding of the sum of the two encoded points.
pub uninterp spec fn point_sum(a: Seq<u8>, b: Seq<u8>) -> Seq<u8>;

/// The encoding of the first encoded point less the second.
pub uninterp spec fn point_difference(a: Seq<u8>, b: Seq<u8>) -> Seq<u8>;

/// The encoding of the encoded point times the scalar.
pub uninterp spec fn point_scaled(p: Seq<u8>, s: int) -> Seq<u8>;

/// The encoding of the sum of the encoded points, each times its scalar.
pub uninterp spec fn multiexp_result(coeffs: Seq<int>, bases: Seq<Seq<u8>>) -> Seq<u8>;

/// A point of the curve in compressed encoding.
#[derive(Clone, Copy, Debug, PartialEq, Eq)]
pub struct Point {
    pub bytes: [u8; 32],
}

impl Point {
    /// The bytes encode a point of the curve.
    pub open spec fn valid(&self) -> bool {
        point_decodes(self.bytes@)
    }

    /// The point with the given encoding, if it is one.
    pub fn from_bytes(bytes: [u8; 32]) -> (r: Option<Point>)
        ensures
            r.is_some() == point_decodes(bytes@),
            r.is_some() ==> r.unwrap().bytes == bytes,
    {
        if point_is_valid(&bytes) {
            Some(Point { bytes })
        } else {
            None
        }
    }
}

/// Every point of the sequence is valid.
pub open spec fn all_valid(s: Seq<Point>) -> bool {
    forall|i: int| 0 <= i < s.len() ==> (#[trigger] s[i]).valid()
}

/// The encodings of a sequence of points.
pub open spec fn encodings(s: Seq<Point>) -> Seq<Seq<u8>> {
    Seq::new(s.len(), |i: int| s[i].bytes@)
}

/// `GroupEncoding::from_bytes` of `VestaAffine`: whether the bytes decode to
/// a point of the curve.
#[verifier::external_body]
pub(crate) fn point_is_valid(bytes: &[u8; 32]) -> (r: bool)
    ensures
        r == point_decodes(bytes@),
{
    VestaAffine::from_bytes(&(*bytes).into()).is_some().into()
}

/// `Vesta`'s `+`: the sum of two points, which is a point.
#[verifier::external_body]
pub(crate) fn curve_add(a: &Point, b: &Point) -> (r: Point)
    requires
        a.valid(),
        b.valid(),
    ensures
        r.valid(),
        r.bytes@ == point_sum(a.bytes@, b.bytes@),
{
    let x = Vesta::from_bytes(&a.bytes.into()).unwrap();
    let y = Vesta::from_bytes(&b.bytes.into()).unwrap();
    Point { bytes: (x + y).to_bytes().into() }
}

/// `Vesta`'s `-`: the difference of two points, which is a point.
#[verifier::external_body]
pub(crate) fn curve_sub(a: &Point, b: &Point) -> (r: Point)
    requires
        a.valid(),
        b.valid(),
    ensures
        r.valid(),
        r.bytes@ == point_difference(a.bytes@, b.bytes@),
{
    let x = Vesta::from_bytes(&a.bytes.into()).unwrap();
    let y = Vesta::from_bytes(&b.bytes.into()).unwrap();
    Point { bytes: (x - y).to_bytes().into() }
}

/// `Vesta`'s `*` by a scalar: the point times the scalar, which is a point.
#[verifier::external_body]
pub(crate) fn curve_scale(p: &Point, s: &Fe) -> (r: Point)
    requires
        p.valid(),
        s.wf(),
    ensures
        r.valid(),
        r.bytes@ == point_scaled(p.bytes@, s.value()),
{
    let x = Vesta::from_bytes(&p.bytes.into()).unwrap();
    Point { bytes: (x * Fp::from_bytes(&s.bytes).unwrap()).to_bytes().into() }
}

/// `halo2curves::msm::msm_best`: the sum of the bases, each times its
/// coefficient, which is a point. It takes as many bases as coefficients.
#[verifier::external_body]
pub(crate) fn curve_multiexp(coeffs: &[Fe], bases: &[Point]) -> (r: Point)
    requires
        coeffs@.len() == bases@.len(),
        all_wf(coeffs@),
        all_valid(bases@),
    ensures
        r.valid(),
        r.bytes@ == multiexp_result(vals(coeffs@), encodings(bases@)),
{
    let cs: Vec<Fp> = coeffs.iter().map(|c| Fp::from_bytes(&c.bytes).unwrap()).collect();
    let bs: Vec<VestaAffine> = bases.iter().map(
        |b| VestaAffine::from_bytes(&b.bytes.into()).unwrap(),
    ).collect();
    Point { bytes: halo2curves::msm::msm_best(&cs, &bs).to_bytes().into() }
}

/// The sum of the bases, each times its coefficient.
pub fn best_multiexp(coeffs: &[Fe], bases: &[Point]) -> (r: Point)
    requires
        coeffs@.len() == bases@.len(),
        all_wf(coeffs@),
        all_valid(bases@),
    ensures
        r.valid(),
        r.bytes@ == multiexp_result(vals(coeffs@), encodings(bases@)),
{
    curve_multiexp(coeffs, bases)
}

/// Whether every one of the encodings is that of a point.
pub fn check_points(points: &[Point]) -> (ok: bool)
    ensures
        ok == all_valid(points@),
{
    let mut i: usize = 0;
    while i < points.len()
        invariant
            i <= points@.len(),
            forall|s: int| 0 <= s < i ==> (#[trigger] points@[s]).valid(),
        decreases points@.len() - i,
    {
        if !point_is_valid(&points[i].bytes) {
            return false;
        }
        i += 1;
    }
    true
}

/// The sum of the bases, each times its coefficient, where there are as many
/// bases as coefficients and every base is a point; `None` otherwise.
pub fn checked_multiexp(coeffs: &[Fe], bases: &[Point]) -> (r: Option<Point>)
    requires
        all_wf(coeffs@),
    ensures
        r.is_some() == (coeffs@.len() == bases@.len() && all_valid(bases@)),
        r.is_some() ==> r.unwrap().valid() && r.unwrap().bytes@ == multiexp_result(
            vals(coeffs@),
            encodings(bases@),
        ),
{
    if coeffs.len() != bases.len() || !check_points(bases) {
        None
    } else {
        Some(best_multiexp(coeffs, bases))
    }
}

} // verus!
