//! Polynomials over the field, as coefficient sequences with the constant
//! term first: evaluation, interpolation, division by a linear factor,
//! vanishing-polynomial evaluation and inner products.

use crate::field::all_wf;
use crate::field::fadd;
use crate::field::field_inv;
use crate::field::fmul;
use crate::field::fneg;
use crate::field::fp_add;
use crate::field::fp_batch_invert;
use crate::field::fp_mul;
use crate::field::fp_neg;
use crate::field::fp_pow;
use crate::field::fp_sub;
use crate::field::fsub;
use crate::field::lemma_distinct_difference;
use crate::field::lemma_field_ops_reduce;
use crate::field::lemma_modulus_large;
use crate::field::lemma_value_determines_bytes;
use crate::field::modulus;
use crate::field::vals;
use crate::field::Fe;
use crate::lagrange::differences_invertible;
use crate::lagrange::interpolates;
use crate::lagrange::lemma_interpolation_unique;
use crate::lagrange::lemma_interpolation_matches;
use crate::partition::lemma_partition_covers;
use crate::partition::worker_count;
use crate::partition::Partition;
use vstd::arithmetic::div_mod::*;
use vstd::arithmetic::power::*;
use vstd::prelude::*;

verus! {

/// No two points are equal.
pub open spec fn distinct(points: Seq<int>) -> bool {
    forall|i: int, j: int| 0 <= i < j < points.len() ==> points[i] != points[j]
}

/// The `t`-th of the points other than the `j`-th, in their order.
pub open spec fn other_point(points: Seq<int>, j: int, t: int) -> int {
    if t < j {
        points[t]
    } else {
        points[t + 1]
    }
}

/// The coefficients of `t(X) * (X - root) * d` in the field.
pub open spec fn scale_by_linear(t: Seq<int>, root: int, d: int) -> Seq<int> {
    Seq::new(
        (t.len() + 1) as nat,
        |i: int|
            fadd(
                fmul(if i < t.len() { t[i] } else { 0 }, fmul(fneg(d), root)),
                fmul(if i > 0 { t[i - 1] } else { 0 }, d),
            ),
    )
}

/// The product of `(X - x_k) / (x_j - x_k)` over the first `m` points `x_k`
/// other than `x_j`.
pub open spec fn basis(points: Seq<int>, j: int, m: nat) -> Seq<int>
    decreases m,
{
    if m == 0 {
        seq![1int]
    } else {
        let x_k = other_point(points, j, m - 1);
        scale_by_linear(
            basis(points, j, (m - 1) as nat),
            x_k,
            field_inv(fsub(points[j], x_k)),
        )
    }
}

/// The sum over the first `j` points of the evaluation times the point's
/// basis polynomial.
pub open spec fn interpolation_sum(points: Seq<int>, evals: Seq<int>, j: nat) -> Seq<int>
    decreases j,
{
    if j == 0 {
        Seq::new(points.len(), |i: int| 0int)
    } else {
        let prev = interpolation_sum(points, evals, (j - 1) as nat);
        let b = basis(points, j - 1, (points.len() - 1) as nat);
        Seq::new(points.len(), |i: int| fadd(prev[i], fmul(b[i], evals[j - 1])))
    }
}

/// The coefficients of the Lagrange interpolation polynomial through
/// `(points[i], evals[i])`.
pub open spec fn interpolation(points: Seq<int>, evals: Seq<int>) -> Seq<int> {
    if points.len() == 1 {
        seq![evals[0]]
    } else {
        interpolation_sum(points, evals, points.len())
    }
}

/// The differences between the `j`-th point and each other point.
fn difference_row(points: &[Fe], j: usize) -> (row: Vec<Fe>)
    requires
        j < points@.len(),
        all_wf(points@),
    ensures
        row@.len() == points@.len() - 1,
        forall|t: int|
            0 <= t < row@.len() ==> {
                &&& (#[trigger] row@[t]).wf()
                &&& row@[t].value() == fsub(
                    vals(points@)[j as int],
                    other_point(vals(points@), j as int, t),
                )
            },
{
    let n = points.len();
    let mut row: Vec<Fe> = Vec::new();
    let mut t: usize = 0;
    while t < n - 1
        invariant
            n == points@.len(),
            j < n,
            t <= n - 1,
            all_wf(points@),
            row@.len() == t,
            forall|s: int|
                0 <= s < t ==> {
                    &&& (#[trigger] row@[s]).wf()
                    &&& row@[s].value() == fsub(
                        vals(points@)[j as int],
                        other_point(vals(points@), j as int, s),
                    )
                },
        decreases n - 1 - t,
    {
        let k: usize = if t < j { t } else { t + 1 };
        assert(points@[j as int].wf() && points@[k as int].wf());
        let d = fp_sub(&points[j], &points[k]);
        row.push(d);
        t += 1;
    }
    row
}

/// The coefficients of `t(X) * (X - root) * d`.
fn multiply_linear(t: &Vec<Fe>, root: &Fe, d: &Fe) -> (r: Vec<Fe>)
    requires
        t@.len() < usize::MAX,
        all_wf(t@),
        root.wf(),
        d.wf(),
    ensures
        all_wf(r@),
        vals(r@) == scale_by_linear(vals(t@), root.value(), d.value()),
{
    let len = t.len();
    let c = fp_mul(&fp_neg(d), root);
    let mut r: Vec<Fe> = Vec::new();
    let mut i: usize = 0;
    while i <= len
        invariant
            len == t@.len(),
            len < usize::MAX,
            i <= len + 1,
            all_wf(t@),
            c.wf(),
            d.wf(),
            c.value() == fmul(fneg(d.value()), root.value()),
            r@.len() == i,
            all_wf(r@),
            forall|s: int|
                0 <= s < i ==> (#[trigger] r@[s]).value() == scale_by_linear(
                    vals(t@),
                    root.value(),
                    d.value(),
                )[s],
        decreases len + 1 - i,
    {
        let a = if i < len { t[i] } else { Fe::zero() };
        let b = if i > 0 { t[i - 1] } else { Fe::zero() };
        assert(a.wf() && b.wf());
        let v = fp_add(&fp_mul(&a, &c), &fp_mul(&b, d));
        r.push(v);
        i += 1;
    }
    assert(vals(r@) =~= scale_by_linear(vals(t@), root.value(), d.value()));
    r
}

/// The `j`-th Lagrange basis polynomial, from the inverted differences.
fn basis_polynomial(points: &[Fe], j: usize, inv: &Vec<Fe>) -> (r: Vec<Fe>)
    requires
        j < points@.len(),
        all_wf(points@),
        inv@.len() == points@.len() - 1,
        forall|t: int|
            0 <= t < inv@.len() ==> {
                &&& (#[trigger] inv@[t]).wf()
                &&& inv@[t].value() == field_inv(
                    fsub(vals(points@)[j as int], other_point(vals(points@), j as int, t)),
                )
            },
    ensures
        all_wf(r@),
        vals(r@) == basis(vals(points@), j as int, (points@.len() - 1) as nat),
{
    let n = points.len();
    let mut tmp: Vec<Fe> = Vec::new();
    tmp.push(Fe::one());
    assert(vals(tmp@) =~= basis(vals(points@), j as int, 0));
    let mut t: usize = 0;
    while t < n - 1
        invariant
            n == points@.len(),
            j < n,
            t <= n - 1,
            all_wf(points@),
            inv@.len() == n - 1,
            forall|s: int|
                0 <= s < inv@.len() ==> {
                    &&& (#[trigger] inv@[s]).wf()
                    &&& inv@[s].value() == field_inv(
                        fsub(vals(points@)[j as int], other_point(vals(points@), j as int, s)),
                    )
                },
            tmp@.len() == t + 1,
            all_wf(tmp@),
            vals(tmp@) == basis(vals(points@), j as int, t as nat),
        decreases n - 1 - t,
    {
        let k: usize = if t < j { t } else { t + 1 };
        assert(points@[k as int].wf() && inv@[t as int].wf());
        assert(vals(points@)[k as int] == other_point(vals(points@), j as int, t as int));
        let next = multiply_linear(&tmp, &points[k], &inv[t]);
        tmp = next;
        t += 1;
        assert(tmp@.len() == t + 1) by {
            assert(vals(tmp@).len() == tmp@.len());
        }
    }
    tmp
}

/// Adds `eval` times each coefficient of `term` to the coefficient of `sum`
/// at the same place.
fn accumulate_scaled(sum: &Vec<Fe>, term: &Vec<Fe>, eval: &Fe) -> (r: Vec<Fe>)
    requires
        sum@.len() == term@.len(),
        all_wf(sum@),
        all_wf(term@),
        eval.wf(),
    ensures
        r@.len() == sum@.len(),
        forall|i: int|
            0 <= i < r@.len() ==> {
                &&& (#[trigger] r@[i]).wf()
                &&& r@[i].value() == fadd(sum@[i].value(), fmul(term@[i].value(), eval.value()))
            },
{
    let n = sum.len();
    let mut r: Vec<Fe> = Vec::new();
    let mut i: usize = 0;
    while i < n
        invariant
            n == sum@.len(),
            n == term@.len(),
            i <= n,
            all_wf(sum@),
            all_wf(term@),
            eval.wf(),
            r@.len() == i,
            forall|s: int|
                0 <= s < i ==> {
                    &&& (#[trigger] r@[s]).wf()
                    &&& r@[s].value() == fadd(
                        sum@[s].value(),
                        fmul(term@[s].value(), eval.value()),
                    )
                },
        decreases n - i,
    {
        assert(sum@[i as int].wf() && term@[i as int].wf());
        let v = fp_add(&sum[i], &fp_mul(&term[i], eval));
        r.push(v);
        i += 1;
    }
    r
}

/// The coefficients of the polynomial of degree below `points.len()` that
/// takes the value `evals[i]` at `points[i]`, by Lagrange's formula with one
/// batched inversion of all the differences between points. It is the only
/// such polynomial: interpolating the values of a polynomial gives the
/// polynomial back.
pub fn lagrange_interpolate(points: &[Fe], evals: &[Fe]) -> (r: Vec<Fe>)
    requires
        points@.len() == evals@.len(),
        all_wf(points@),
        all_wf(evals@),
        distinct(vals(points@)),
    ensures
        all_wf(r@),
        vals(r@) == interpolation(vals(points@), vals(evals@)),
        r@.len() == points@.len(),
        forall|i: int|
            0 <= i < points@.len() ==> poly_eval(vals(r@), #[trigger] vals(points@)[i])
                % modulus() == vals(evals@)[i],
        forall|p: Seq<int>|
            #[trigger] interpolates(p, vals(points@), vals(evals@)) ==> vals(r@) == p,
{
    let n = points.len();
    proof {
        assert forall|i: int| 0 <= i < n implies 0 <= #[trigger] vals(evals@)[i] < modulus() by {
            assert(evals@[i].wf());
        }
    }
    if n == 1 {
        let mut r: Vec<Fe> = Vec::new();
        r.push(evals[0]);
        assert(evals@[0].wf());
        assert(vals(r@) =~= seq![vals(evals@)[0]]);
        proof {
            lemma_interpolation_matches(vals(points@), vals(evals@), 0);
            assert forall|p: Seq<int>| #[trigger]
                interpolates(p, vals(points@), vals(evals@)) implies vals(r@) == p by {
                lemma_interpolation_unique(p, vals(points@), vals(evals@));
            }
        }
        return r;
    }
    let ghost ps = vals(points@);
    let ghost es = vals(evals@);
    let mut denoms: Vec<Vec<Fe>> = Vec::new();
    let mut j: usize = 0;
    while j < n
        invariant
            n == points@.len(),
            ps == vals(points@),
            all_wf(points@),
            j <= n,
            denoms@.len() == j,
            forall|a: int| 0 <= a < j ==> (#[trigger] denoms@[a])@.len() == n - 1,
            forall|a: int| 0 <= a < j ==> all_wf(#[trigger] denoms@[a]@),
            forall|a: int, t: int|
                0 <= a < j && 0 <= t < n - 1 ==> (#[trigger] denoms@[a]@[t]).value() == fsub(
                    ps[a],
                    other_point(ps, a, t),
                ),
        decreases n - j,
    {
        let row = difference_row(points, j);
        denoms.push(row);
        j += 1;
    }
    let ghost before = denoms@;
    fp_batch_invert(&mut denoms);
    let mut final_poly: Vec<Fe> = Vec::new();
    let mut i: usize = 0;
    while i < n
        invariant
            i <= n,
            final_poly@.len() == i,
            forall|s: int| 0 <= s < i ==> (#[trigger] final_poly@[s]).wf() && final_poly@[s].value() == 0,
        decreases n - i,
    {
        final_poly.push(Fe::zero());
        i += 1;
    }
    assert(vals(final_poly@) =~= interpolation_sum(ps, es, 0));
    j = 0;
    while j < n
        invariant
            n == points@.len(),
            n == evals@.len(),
            ps == vals(points@),
            es == vals(evals@),
            all_wf(points@),
            all_wf(evals@),
            j <= n,
            denoms@.len() == n,
            before.len() == n,
            forall|a: int| 0 <= a < n ==> (#[trigger] before[a])@.len() == n - 1,
            forall|a: int| 0 <= a < n ==> (#[trigger] denoms@[a])@.len() == before[a]@.len(),
            forall|a: int, t: int|
                0 <= a < n && 0 <= t < n - 1 ==> (#[trigger] before[a]@[t]).value() == fsub(
                    ps[a],
                    other_point(ps, a, t),
                ),
            forall|a: int, t: int|
                0 <= a < n && 0 <= t < before[a]@.len() ==> {
                    &&& (#[trigger] denoms@[a]@[t]).wf()
                    &&& denoms@[a]@[t].value() == field_inv(before[a]@[t].value())
                    &&& before[a]@[t].value() != 0 ==> fmul(
                        before[a]@[t].value(),
                        denoms@[a]@[t].value(),
                    ) == 1
                },
            final_poly@.len() == n,
            all_wf(final_poly@),
            vals(final_poly@) == interpolation_sum(ps, es, j as nat),
        decreases n - j,
    {
        assert(before[j as int]@.len() == n - 1);
        assert(denoms@[j as int]@.len() == n - 1);
        assert(evals@[j as int].wf());
        let term = basis_polynomial(points, j, &denoms[j]);
        assert(term@.len() == n) by {
            assert(vals(term@).len() == term@.len());
            lemma_basis_len(ps, j as int, (n - 1) as nat);
        }
        let next = accumulate_scaled(&final_poly, &term, &evals[j]);
        assert(vals(next@) =~= interpolation_sum(ps, es, (j + 1) as nat)) by {
            assert forall|s: int| 0 <= s < n implies vals(next@)[s] == interpolation_sum(
                ps,
                es,
                (j + 1) as nat,
            )[s] by {
                assert(vals(final_poly@)[s] == final_poly@[s].value());
                assert(vals(term@)[s] == term@[s].value());
            }
        }
        final_poly = next;
        j += 1;
    }
    proof {
        assert forall|a: int, b: int| 0 <= a < n && 0 <= b < n && a != b implies fmul(
            fsub(#[trigger] ps[a], #[trigger] ps[b]),
            field_inv(fsub(ps[a], ps[b])),
        ) == 1 by {
            let t = if b < a { b } else { b - 1 };
            assert(other_point(ps, a, t) == ps[b]);
            assert(points@[a].wf() && points@[b].wf());
            if a < b {
                assert(ps[a] != ps[b]);
            } else {
                assert(ps[b] != ps[a]);
            }
            lemma_distinct_difference(ps[a], ps[b]);
            assert(before[a]@.len() == n - 1);
            assert(before[a]@[t].value() == fsub(ps[a], ps[b]));
            assert(denoms@[a]@[t].value() == field_inv(before[a]@[t].value()));
        }
        assert(differences_invertible(ps));
        assert forall|i: int| 0 <= i < n implies poly_eval(
            vals(final_poly@),
            #[trigger] vals(points@)[i],
        ) % modulus() == vals(evals@)[i] by {
            lemma_interpolation_matches(ps, es, i);
        }
        assert forall|p: Seq<int>| #[trigger] interpolates(p, ps, es) implies vals(final_poly@)
            == p by {
            lemma_interpolation_unique(p, ps, es);
        }
    }
    final_poly
}

/// Whether two elements have the same representative.
pub fn same_element(a: &Fe, b: &Fe) -> (r: bool)
    ensures
        r == (a.value() == b.value()),
{
    let mut i: usize = 0;
    while i < 32
        invariant
            i <= 32,
            forall|s: int| 0 <= s < i ==> a.bytes@[s] == b.bytes@[s],
        decreases 32 - i,
    {
        if a.bytes[i] != b.bytes[i] {
            proof {
                if a.value() == b.value() {
                    lemma_value_determines_bytes(a.bytes@, b.bytes@);
                }
            }
            return false;
        }
        i += 1;
    }
    assert(a.bytes@ =~= b.bytes@);
    true
}

/// Whether no two of the points are equal.
pub fn points_distinct(points: &[Fe]) -> (r: bool)
    ensures
        r == distinct(vals(points@)),
{
    let n = points.len();
    let ghost ps = vals(points@);
    let mut j: usize = 0;
    while j < n
        invariant
            n == points@.len(),
            ps == vals(points@),
            j <= n,
            forall|a: int, b: int| 0 <= a < b < j ==> ps[a] != ps[b],
        decreases n - j,
    {
        let mut i: usize = 0;
        while i < j
            invariant
                n == points@.len(),
                ps == vals(points@),
                i <= j < n,
                forall|a: int| 0 <= a < i ==> ps[a] != ps[j as int],
            decreases j - i,
        {
            if same_element(&points[i], &points[j]) {
                assert(ps[i as int] == ps[j as int]);
                return false;
            }
            i += 1;
        }
        j += 1;
    }
    true
}

/// The interpolation polynomial where there are as many evaluations as
/// points and no two points are equal; `None` otherwise.
pub fn checked_lagrange_interpolate(points: &[Fe], evals: &[Fe]) -> (r: Option<Vec<Fe>>)
    requires
        all_wf(points@),
        all_wf(evals@),
    ensures
        r.is_some() == (points@.len() == evals@.len() && distinct(vals(points@))),
        r.is_some() ==> {
            &&& all_wf(r.unwrap()@)
            &&& vals(r.unwrap()@) == interpolation(vals(points@), vals(evals@))
            &&& forall|i: int|
                0 <= i < points@.len() ==> poly_eval(
                    vals(r.unwrap()@),
                    #[trigger] vals(points@)[i],
                ) % modulus() == vals(evals@)[i]
            &&& forall|p: Seq<int>|
                #[trigger] interpolates(p, vals(points@), vals(evals@)) ==> vals(r.unwrap()@) == p
        },
{
    if points.len() != evals.len() || !points_distinct(points) {
        None
    } else {
        Some(lagrange_interpolate(points, evals))
    }
}

/// A basis polynomial built from `m` factors has `m + 1` coefficients.
pub proof fn lemma_basis_len(points: Seq<int>, j: int, m: nat)
    ensures
        basis(points, j, m).len() == m + 1,
    decreases m,
{
    if m > 0 {
        lemma_basis_len(points, j, (m - 1) as nat);
    }
}


/// The value of the polynomial with coefficients `p` at `x`, over the
/// integers.
pub open spec fn poly_eval(p: Seq<int>, x: int) -> int
    decreases p.len(),
{
    if p.len() == 0 {
        0
    } else {
        p[0] + x * poly_eval(p.skip(1), x)
    }
}

/// The product of `z - r` over the roots `r`, over the integers.
pub open spec fn vanishing(roots: Seq<int>, z: int) -> int
    decreases roots.len(),
{
    if roots.len() == 0 {
        1
    } else {
        (z - roots[0]) * vanishing(roots.skip(1), z)
    }
}

/// The sum of the products `a[i] * b[i]`, over the integers.
pub open spec fn dot(a: Seq<int>, b: Seq<int>) -> int
    decreases a.len(),
{
    if a.len() == 0 || b.len() == 0 {
        0
    } else {
        a[0] * b[0] + dot(a.skip(1), b.skip(1))
    }
}

/// A polynomial split into a low block and a high block is the low block
/// plus `x^len(low)` times the high block.
pub proof fn lemma_poly_eval_concat(a: Seq<int>, b: Seq<int>, x: int)
    ensures
        poly_eval(a + b, x) == poly_eval(a, x) + pow(x, a.len()) * poly_eval(b, x),
    decreases a.len(),
{
    if a.len() == 0 {
        assert(a + b =~= b);
        lemma_pow0(x);
    } else {
        assert((a + b).skip(1) =~= a.skip(1) + b);
        assert((a + b)[0] == a[0]);
        lemma_poly_eval_concat(a.skip(1), b, x);
        let pa = poly_eval(a.skip(1), x);
        let pb = poly_eval(b, x);
        let pw = pow(x, a.skip(1).len());
        assert(pow(x, a.len()) == x * pw) by {
            reveal(pow);
            assert(a.skip(1).len() == a.len() - 1);
        }
        assert(poly_eval(a + b, x) == a[0] + x * (pa + pw * pb));
        assert(x * (pa + pw * pb) == x * pa + (x * pw) * pb) by (nonlinear_arith);
    }
}

/// The vanishing polynomial of a concatenation is the product of those of
/// its parts.
pub proof fn lemma_vanishing_concat(a: Seq<int>, b: Seq<int>, z: int)
    ensures
        vanishing(a + b, z) == vanishing(a, z) * vanishing(b, z),
    decreases a.len(),
{
    if a.len() == 0 {
        assert(a + b =~= b);
    } else {
        assert((a + b).skip(1) =~= a.skip(1) + b);
        lemma_vanishing_concat(a.skip(1), b, z);
        let va = vanishing(a.skip(1), z);
        let vb = vanishing(b, z);
        let f = z - a[0];
        assert(f * (va * vb) == (f * va) * vb) by (nonlinear_arith);
    }
}

/// The inner product of two concatenations whose first blocks have equal
/// length is the sum of the blocks' inner products.
pub proof fn lemma_dot_concat(a1: Seq<int>, a2: Seq<int>, b1: Seq<int>, b2: Seq<int>)
    requires
        a1.len() == b1.len(),
    ensures
        dot(a1 + a2, b1 + b2) == dot(a1, b1) + dot(a2, b2),
    decreases a1.len(),
{
    if a1.len() == 0 {
        assert(a1 + a2 =~= a2);
        assert(b1 + b2 =~= b2);
    } else if a2.len() == 0 || b2.len() == 0 {
        assert((a1 + a2).skip(1) =~= a1.skip(1) + a2);
        assert((b1 + b2).skip(1) =~= b1.skip(1) + b2);
        lemma_dot_concat(a1.skip(1), a2, b1.skip(1), b2);
    } else {
        assert((a1 + a2).skip(1) =~= a1.skip(1) + a2);
        assert((b1 + b2).skip(1) =~= b1.skip(1) + b2);
        lemma_dot_concat(a1.skip(1), a2, b1.skip(1), b2);
    }
}

/// Horner's rule on the coefficients from `lo` up to `hi`, highest first.
fn horner_range(poly: &[Fe], lo: usize, hi: usize, point: &Fe) -> (r: Fe)
    requires
        lo <= hi <= poly@.len(),
        all_wf(poly@),
        point.wf(),
    ensures
        r.wf(),
        r.value() == poly_eval(vals(poly@).subrange(lo as int, hi as int), point.value())
            % modulus(),
{
    let ghost v = vals(poly@);
    let ghost x = point.value();
    let mut acc = Fe::zero();
    let mut i: usize = hi;
    proof {
        lemma_modulus_large();
        lemma_small_mod(0, modulus() as nat);
        assert(v.subrange(hi as int, hi as int).len() == 0);
    }
    while i > lo
        invariant
            lo <= i <= hi <= poly@.len(),
            all_wf(poly@),
            point.wf(),
            v == vals(poly@),
            x == point.value(),
            acc.wf(),
            acc.value() == poly_eval(v.subrange(i as int, hi as int), x) % modulus(),
        decreases i,
    {
        i -= 1;
        assert(poly@[i as int].wf());
        let next = fp_add(&fp_mul(&acc, point), &poly[i]);
        proof {
            let tail = poly_eval(v.subrange(i + 1, hi as int), x);
            assert(v.subrange(i as int, hi as int).skip(1) =~= v.subrange(i + 1, hi as int));
            lemma_field_ops_reduce(tail, x);
            lemma_field_ops_reduce(tail * x, v[i as int]);
            assert(tail * x + v[i as int] == v[i as int] + x * tail) by (nonlinear_arith);
        }
        acc = next;
    }
    acc
}

/// The value of the polynomial at `point`, computed block by block as
/// `num_threads` workers would: each block by Horner's rule, scaled by the
/// point raised to the block's first exponent, and the scaled values summed.
/// With no worker, or with fewer than half as many coefficients as workers,
/// one run of Horner's rule does it. The value is the same either way.
pub fn eval_polynomial_with(poly: &[Fe], point: Fe, num_threads: usize) -> (r: Fe)
    requires
        all_wf(poly@),
        point.wf(),
    ensures
        r.wf(),
        r.value() == poly_eval(vals(poly@), point.value()) % modulus(),
{
    let n = poly.len();
    let ghost v = vals(poly@);
    let ghost x = point.value();
    if num_threads == 0 || (n <= usize::MAX / 2 && n * 2 < num_threads) {
        assert(v.subrange(0, n as int) =~= v);
        return horner_range(poly, 0, n, &point);
    }
    assert(n >= 1);
    let chunk_size: usize = (n - 1) / num_threads + 1;
    let mut acc = Fe::zero();
    let mut start: usize = 0;
    proof {
        lemma_modulus_large();
        lemma_small_mod(0, modulus() as nat);
        assert(v.subrange(0, 0).len() == 0);
    }
    while start < n
        invariant
            n == poly@.len(),
            start <= n,
            chunk_size >= 1,
            all_wf(poly@),
            point.wf(),
            v == vals(poly@),
            x == point.value(),
            acc.wf(),
            acc.value() == poly_eval(v.subrange(0, start as int), x) % modulus(),
        decreases n - start,
    {
        let len: usize = if n - start < chunk_size { n - start } else { chunk_size };
        let end: usize = start + len;
        let block = horner_range(poly, start, end, &point);
        let scale = fp_pow(&point, start as u64);
        let part = fp_mul(&block, &scale);
        let next = fp_add(&acc, &part);
        proof {
            let lo = v.subrange(0, start as int);
            let hi = v.subrange(start as int, end as int);
            assert(v.subrange(0, end as int) =~= lo + hi);
            lemma_poly_eval_concat(lo, hi, x);
            let h = poly_eval(hi, x);
            let pw = pow(x, start as nat);
            lemma_field_ops_reduce(h, pw);
            lemma_field_ops_reduce(poly_eval(lo, x), h * pw);
            assert(h * pw == pw * h) by (nonlinear_arith);
        }
        acc = next;
        start = end;
    }
    assert(v.subrange(0, n as int) =~= v);
    acc
}

/// The value of the polynomial at `point`, split among the workers of the
/// current thread pool.
pub fn eval_polynomial(poly: &[Fe], point: Fe) -> (r: Fe)
    requires
        all_wf(poly@),
        point.wf(),
    ensures
        r.wf(),
        r.value() == poly_eval(vals(poly@), point.value()) % modulus(),
{
    eval_polynomial_with(poly, point, worker_count())
}

/// The product of `z - root` over the roots from `lo` up to `hi`.
fn vanishing_range(roots: &[Fe], lo: usize, hi: usize, z: &Fe) -> (r: Fe)
    requires
        lo <= hi <= roots@.len(),
        all_wf(roots@),
        z.wf(),
    ensures
        r.wf(),
        r.value() == vanishing(vals(roots@).subrange(lo as int, hi as int), z.value())
            % modulus(),
{
    let ghost v = vals(roots@);
    let ghost zv = z.value();
    let mut acc = Fe::one();
    let mut i: usize = lo;
    proof {
        lemma_modulus_large();
        lemma_small_mod(1, modulus() as nat);
        assert(v.subrange(lo as int, lo as int).len() == 0);
    }
    while i < hi
        invariant
            lo <= i <= hi <= roots@.len(),
            all_wf(roots@),
            z.wf(),
            v == vals(roots@),
            zv == z.value(),
            acc.wf(),
            acc.value() == vanishing(v.subrange(lo as int, i as int), zv) % modulus(),
        decreases hi - i,
    {
        assert(roots@[i as int].wf());
        let next = fp_mul(&fp_sub(z, &roots[i]), &acc);
        proof {
            let done = v.subrange(lo as int, i as int);
            let one = v.subrange(i as int, i + 1);
            assert(v.subrange(lo as int, i + 1) =~= done + one);
            lemma_vanishing_concat(done, one, zv);
            assert(one.skip(1).len() == 0);
            assert(vanishing(one.skip(1), zv) == 1);
            assert(one[0] == v[i as int]);
            assert(vanishing(one, zv) == (zv - v[i as int]) * 1);
            let d = vanishing(done, zv);
            lemma_field_ops_reduce(zv - v[i as int], d);
            assert((zv - v[i as int]) * d == d * ((zv - v[i as int]) * 1)) by (nonlinear_arith);
        }
        acc = next;
        i += 1;
    }
    acc
}

/// The vanishing polynomial of `roots` at `z`, computed block by block as
/// `num_threads` workers would, the blocks' products multiplied together.
/// The value is the same for every number of workers.
pub fn evaluate_vanishing_polynomial_with(roots: &[Fe], z: Fe, num_threads: usize) -> (r: Fe)
    requires
        all_wf(roots@),
        z.wf(),
    ensures
        r.wf(),
        r.value() == vanishing(vals(roots@), z.value()) % modulus(),
{
    let n = roots.len();
    let ghost v = vals(roots@);
    let ghost zv = z.value();
    if num_threads == 0 || (n <= usize::MAX / 2 && n * 2 < num_threads) {
        assert(v.subrange(0, n as int) =~= v);
        return vanishing_range(roots, 0, n, &z);
    }
    assert(n >= 1);
    let chunk_size: usize = (n - 1) / num_threads + 1;
    let mut acc = Fe::one();
    let mut start: usize = 0;
    proof {
        lemma_modulus_large();
        lemma_small_mod(1, modulus() as nat);
        assert(v.subrange(0, 0).len() == 0);
    }
    while start < n
        invariant
            n == roots@.len(),
            start <= n,
            chunk_size >= 1,
            all_wf(roots@),
            z.wf(),
            v == vals(roots@),
            zv == z.value(),
            acc.wf(),
            acc.value() == vanishing(v.subrange(0, start as int), zv) % modulus(),
        decreases n - start,
    {
        let len: usize = if n - start < chunk_size { n - start } else { chunk_size };
        let end: usize = start + len;
        let part = vanishing_range(roots, start, end, &z);
        let next = fp_mul(&acc, &part);
        proof {
            let lo = v.subrange(0, start as int);
            let hi = v.subrange(start as int, end as int);
            assert(v.subrange(0, end as int) =~= lo + hi);
            lemma_vanishing_concat(lo, hi, zv);
            lemma_field_ops_reduce(vanishing(lo, zv), vanishing(hi, zv));
        }
        acc = next;
        start = end;
    }
    assert(v.subrange(0, n as int) =~= v);
    acc
}

/// The vanishing polynomial of `roots` at `z`: the product of `z - root`,
/// split among the workers of the current thread pool.
pub fn evaluate_vanishing_polynomial(roots: &[Fe], z: Fe) -> (r: Fe)
    requires
        all_wf(roots@),
        z.wf(),
    ensures
        r.wf(),
        r.value() == vanishing(vals(roots@), z.value()) % modulus(),
{
    evaluate_vanishing_polynomial_with(roots, z, worker_count())
}


/// The sum of the products of the elements from `lo` up to `hi`.
fn dot_range(a: &[Fe], b: &[Fe], lo: usize, hi: usize) -> (r: Fe)
    requires
        a@.len() == b@.len(),
        lo <= hi <= a@.len(),
        all_wf(a@),
        all_wf(b@),
    ensures
        r.wf(),
        r.value() == dot(
            vals(a@).subrange(lo as int, hi as int),
            vals(b@).subrange(lo as int, hi as int),
        ) % modulus(),
{
    let ghost va = vals(a@);
    let ghost vb = vals(b@);
    let mut acc = Fe::zero();
    let mut i: usize = lo;
    proof {
        lemma_modulus_large();
        lemma_small_mod(0, modulus() as nat);
        assert(va.subrange(lo as int, lo as int).len() == 0);
    }
    while i < hi
        invariant
            a@.len() == b@.len(),
            lo <= i <= hi <= a@.len(),
            all_wf(a@),
            all_wf(b@),
            va == vals(a@),
            vb == vals(b@),
            acc.wf(),
            acc.value() == dot(va.subrange(lo as int, i as int), vb.subrange(lo as int, i as int))
                % modulus(),
        decreases hi - i,
    {
        assert(a@[i as int].wf() && b@[i as int].wf());
        let next = fp_add(&acc, &fp_mul(&a[i], &b[i]));
        proof {
            let a1 = va.subrange(lo as int, i as int);
            let b1 = vb.subrange(lo as int, i as int);
            let a2 = va.subrange(i as int, i + 1);
            let b2 = vb.subrange(i as int, i + 1);
            assert(va.subrange(lo as int, i + 1) =~= a1 + a2);
            assert(vb.subrange(lo as int, i + 1) =~= b1 + b2);
            lemma_dot_concat(a1, a2, b1, b2);
            assert(a2.skip(1).len() == 0);
            assert(dot(a2.skip(1), b2.skip(1)) == 0);
            assert(a2[0] == va[i as int] && b2[0] == vb[i as int]);
            assert(dot(a2, b2) == va[i as int] * vb[i as int]);
            lemma_field_ops_reduce(dot(a1, b1), va[i as int] * vb[i as int]);
        }
        acc = next;
        i += 1;
    }
    acc
}

/// The inner product computed chunk by chunk, the sequences split among
/// `workers` workers and the chunks' sums added up. The value does not depend
/// on the number of workers.
pub fn compute_inner_product_chunked(a: &[Fe], b: &[Fe], workers: usize) -> (r: Fe)
    requires
        a@.len() == b@.len(),
        all_wf(a@),
        all_wf(b@),
    ensures
        r.wf(),
        r.value() == dot(vals(a@), vals(b@)) % modulus(),
{
    let n = a.len();
    let ghost va = vals(a@);
    let ghost vb = vals(b@);
    assert(va.subrange(0, n as int) =~= va);
    assert(vb.subrange(0, n as int) =~= vb);
    if workers == 0 {
        return dot_range(a, b, 0, n);
    }
    let p = Partition::new(n, workers);
    let mut acc = Fe::zero();
    let mut i: usize = 0;
    proof {
        lemma_modulus_large();
        lemma_small_mod(0, modulus() as nat);
        lemma_partition_covers(p, 0);
        assert(va.subrange(0, 0).len() == 0);
    }
    while i < workers
        invariant
            n == a@.len(),
            n == b@.len(),
            all_wf(a@),
            all_wf(b@),
            va == vals(a@),
            vb == vals(b@),
            p.wf(),
            p.chunks == workers,
            p.total() == n,
            i <= workers,
            acc.wf(),
            acc.value() == dot(
                va.subrange(0, p.chunk_start(i as int)),
                vb.subrange(0, p.chunk_start(i as int)),
            ) % modulus(),
        decreases workers - i,
    {
        proof {
            lemma_partition_covers(p, i as int);
        }
        let start = p.start_of(i);
        let end = start + p.len_of(i);
        let part = dot_range(a, b, start, end);
        let next = fp_add(&acc, &part);
        proof {
            let a1 = va.subrange(0, start as int);
            let b1 = vb.subrange(0, start as int);
            let a2 = va.subrange(start as int, end as int);
            let b2 = vb.subrange(start as int, end as int);
            assert(va.subrange(0, end as int) =~= a1 + a2);
            assert(vb.subrange(0, end as int) =~= b1 + b2);
            lemma_dot_concat(a1, a2, b1, b2);
            lemma_field_ops_reduce(dot(a1, b1), dot(a2, b2));
        }
        acc = next;
        i += 1;
    }
    proof {
        lemma_partition_covers(p, 0);
    }
    acc
}

/// The inner product of `a` and `b`: one pass below 32 elements, chunk by
/// chunk for the workers of the current thread pool from 32 on.
pub fn compute_inner_product(a: &[Fe], b: &[Fe]) -> (r: Fe)
    requires
        a@.len() == b@.len(),
        all_wf(a@),
        all_wf(b@),
    ensures
        r.wf(),
        r.value() == dot(vals(a@), vals(b@)) % modulus(),
{
    if a.len() < 32 {
        compute_inner_product_chunked(a, b, 1)
    } else {
        compute_inner_product_chunked(a, b, worker_count())
    }
}

/// The quotient of `p(X)` by `X - r` over the integers: its `i`-th
/// coefficient is the value at `r` of `p` without its lowest `i + 1` terms.
pub open spec fn linear_quotient(p: Seq<int>, r: int) -> Seq<int> {
    Seq::new((p.len() - 1) as nat, |i: int| poly_eval(p.skip(i + 1), r))
}

/// The quotient of `a(X)` by `X - b` in one pass from the highest coefficient
/// down. The remainder, `a(b)`, is dropped: the caller answers for `b` being a
/// root.
pub fn kate_division(a: &[Fe], b: Fe) -> (q: Vec<Fe>)
    requires
        a@.len() >= 1,
        all_wf(a@),
        b.wf(),
    ensures
        q@.len() == a@.len() - 1,
        all_wf(q@),
        forall|i: int|
            0 <= i < q@.len() ==> (#[trigger] q@[i]).value() == linear_quotient(
                vals(a@),
                b.value(),
            )[i] % modulus(),
{
    let n = a.len();
    let ghost v = vals(a@);
    let ghost bv = b.value();
    let neg_b = fp_neg(&b);
    let mut q: Vec<Fe> = Vec::new();
    let mut k: usize = 0;
    while k < n - 1
        invariant
            k <= n - 1,
            q@.len() == k,
            all_wf(q@),
        decreases n - 1 - k,
    {
        q.push(Fe::zero());
        k += 1;
    }
    let mut tmp = Fe::zero();
    let mut i: usize = n - 1;
    proof {
        lemma_modulus_large();
        lemma_small_mod(0, modulus() as nat);
        assert(v.skip(n as int).len() == 0);
        assert(poly_eval(v.skip(n as int), bv) * (-bv) == 0);
    }
    while i > 0
        invariant
            n == a@.len(),
            i <= n - 1,
            all_wf(a@),
            v == vals(a@),
            bv == b.value(),
            neg_b.wf(),
            neg_b.value() == fneg(bv),
            q@.len() == n - 1,
            all_wf(q@),
            tmp.wf(),
            tmp.value() == (poly_eval(v.skip(i + 1), bv) * (-bv)) % modulus(),
            forall|s: int|
                i <= s < n - 1 ==> (#[trigger] q@[s]).value() == poly_eval(v.skip(s + 1), bv)
                    % modulus(),
        decreases i,
    {
        assert(a@[i as int].wf());
        let lead = fp_sub(&a[i], &tmp);
        let carry = fp_mul(&lead, &neg_b);
        proof {
            let tail = poly_eval(v.skip(i + 1), bv);
            let cur = poly_eval(v.skip(i as int), bv);
            assert(v.skip(i as int).skip(1) =~= v.skip(i + 1));
            assert(v.skip(i as int)[0] == v[i as int]);
            assert(cur == v[i as int] + bv * tail);
            lemma_field_ops_reduce(v[i as int], tail * (-bv));
            assert(v[i as int] - tail * (-bv) == cur) by (nonlinear_arith)
                requires
                    cur == v[i as int] + bv * tail,
            ;
            assert(lead.value() == cur % modulus());
            lemma_field_ops_reduce(cur, -bv);
            assert(carry.value() == (cur * (-bv)) % modulus());
        }
        q.set(i - 1, lead);
        tmp = carry;
        i -= 1;
    }
    q
}

/// Polynomials whose coefficients agree modulo the field's prime take values
/// that agree modulo the prime.
pub proof fn lemma_poly_eval_congruent(a: Seq<int>, b: Seq<int>, x: int)
    requires
        a.len() == b.len(),
        forall|i: int| 0 <= i < a.len() ==> a[i] % modulus() == b[i] % modulus(),
    ensures
        poly_eval(a, x) % modulus() == poly_eval(b, x) % modulus(),
    decreases a.len(),
{
    if a.len() > 0 {
        let ta = poly_eval(a.skip(1), x);
        let tb = poly_eval(b.skip(1), x);
        assert forall|i: int| 0 <= i < a.skip(1).len() implies a.skip(1)[i] % modulus() == b.skip(
            1,
        )[i] % modulus() by {
            assert(a.skip(1)[i] == a[i + 1]);
            assert(b.skip(1)[i] == b[i + 1]);
        }
        lemma_poly_eval_congruent(a.skip(1), b.skip(1), x);
        lemma_field_ops_reduce(x, ta);
        lemma_field_ops_reduce(x, tb);
        lemma_field_ops_reduce(a[0], x * ta);
        lemma_field_ops_reduce(b[0], x * tb);
        assert(fadd(a[0], x * ta) == fadd(b[0], x * tb));
    }
}

/// Over the integers, the quotient times `X - r` is the polynomial less its
/// value at `r`, at every `x`.
pub proof fn lemma_linear_quotient(p: Seq<int>, r: int, x: int)
    requires
        p.len() >= 1,
    ensures
        poly_eval(linear_quotient(p, r), x) * (x - r) == poly_eval(p, x) - poly_eval(p, r),
    decreases p.len(),
{
    let q = linear_quotient(p, r);
    let rest = p.skip(1);
    if p.len() == 1 {
        assert(rest.len() == 0);
        assert(q.len() == 0);
        assert(poly_eval(q, x) * (x - r) == 0) by (nonlinear_arith)
            requires
                poly_eval(q, x) == 0,
        ;
        assert(x * poly_eval(rest, x) == 0 && r * poly_eval(rest, r) == 0) by (nonlinear_arith)
            requires
                poly_eval(rest, x) == 0,
                poly_eval(rest, r) == 0,
        ;
    } else {
        lemma_linear_quotient(rest, r, x);
        let q1 = linear_quotient(rest, r);
        assert(q.skip(1) =~= q1) by {
            assert forall|i: int| 0 <= i < q1.len() implies q.skip(1)[i] == q1[i] by {
                assert(p.skip(i + 2) =~= rest.skip(i + 1));
            }
        }
        assert(q[0] == poly_eval(rest, r));
        let e = poly_eval(q1, x);
        let px = poly_eval(rest, x);
        let pr = poly_eval(rest, r);
        assert(poly_eval(q, x) == pr + x * e);
        assert((pr + x * e) * (x - r) == (p[0] + x * px) - (p[0] + r * pr)) by (nonlinear_arith)
            requires
                e * (x - r) == px - pr,
        ;
    }
}

/// Division by a linear factor is exact at a root: where `q` holds the
/// quotient's coefficients as `kate_division` returns them and `p(r)` is zero
/// in the field, `q(x) * (x - r)` equals `p(x)` in the field at every `x`.
pub proof fn lemma_kate_division_exact(p: Seq<int>, q: Seq<int>, r: int, x: int)
    requires
        p.len() >= 1,
        q.len() == p.len() - 1,
        forall|i: int| 0 <= i < q.len() ==> q[i] == linear_quotient(p, r)[i] % modulus(),
        poly_eval(p, r) % modulus() == 0,
    ensures
        fmul(poly_eval(q, x), x - r) == poly_eval(p, x) % modulus(),
{
    lemma_modulus_large();
    let z = linear_quotient(p, r);
    assert forall|i: int| 0 <= i < q.len() implies q[i] % modulus() == z[i] % modulus() by {
        lemma_mod_twice(z[i], modulus());
    }
    lemma_poly_eval_congruent(q, z, x);
    lemma_linear_quotient(p, r, x);
    lemma_field_ops_reduce(poly_eval(q, x), x - r);
    lemma_field_ops_reduce(poly_eval(z, x), x - r);
    lemma_field_ops_reduce(poly_eval(p, x), poly_eval(p, r));
}

/// The first `count` powers of `base`: 1, `base`, its square and so on.
pub fn powers(base: Fe, count: usize) -> (r: Vec<Fe>)
    requires
        base.wf(),
    ensures
        r@.len() == count,
        forall|i: int|
            0 <= i < count ==> {
                &&& (#[trigger] r@[i]).wf()
                &&& r@[i].value() == pow(base.value(), i as nat) % modulus()
            },
{
    let mut r: Vec<Fe> = Vec::new();
    let mut cur = Fe::one();
    let mut i: usize = 0;
    proof {
        lemma_modulus_large();
        lemma_small_mod(1, modulus() as nat);
        lemma_pow0(base.value());
    }
    while i < count
        invariant
            i <= count,
            base.wf(),
            r@.len() == i,
            cur.wf(),
            cur.value() == pow(base.value(), i as nat) % modulus(),
            forall|s: int|
                0 <= s < i ==> {
                    &&& (#[trigger] r@[s]).wf()
                    &&& r@[s].value() == pow(base.value(), s as nat) % modulus()
                },
        decreases count - i,
    {
        r.push(cur);
        let next = fp_mul(&base, &cur);
        proof {
            reveal(pow);
            lemma_field_ops_reduce(base.value(), pow(base.value(), i as nat));
            assert(pow(base.value(), (i + 1) as nat) == base.value() * pow(
                base.value(),
                i as nat,
            ));
        }
        cur = next;
        i += 1;
    }
    r
}

} // verus!
