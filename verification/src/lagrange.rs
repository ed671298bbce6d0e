//! What the interpolation polynomial is worth at the interpolation points.

use crate::field::fadd;
use crate::field::field_inv;
use crate::field::fmul;
use crate::field::fneg;
use crate::field::fsub;
use crate::field::lemma_distinct_difference;
use crate::field::lemma_field_ops_reduce;
use crate::field::lemma_modulus_large;
use crate::field::modulus;
use crate::poly::basis;
use crate::poly::interpolation;
use crate::poly::interpolation_sum;
use crate::poly::lemma_basis_len;
use crate::poly::lemma_linear_quotient;
use crate::poly::linear_quotient;
use crate::poly::lemma_poly_eval_congruent;
use crate::poly::other_point;
use crate::poly::poly_eval;
use crate::poly::scale_by_linear;
use vstd::arithmetic::div_mod::*;
use vstd::prelude::*;

verus! {

/// The difference of any two of the points at different places has its
/// inverse in the field.
pub open spec fn differences_invertible(points: Seq<int>) -> bool {
    forall|a: int, b: int|
        0 <= a < points.len() && 0 <= b < points.len() && a != b ==> fmul(
            fsub(#[trigger] points[a], #[trigger] points[b]),
            field_inv(fsub(points[a], points[b])),
        ) == 1
}

/// Every value of the sequence is a canonical representative.
pub open spec fn all_reduced(s: Seq<int>) -> bool {
    forall|i: int| 0 <= i < s.len() ==> 0 <= #[trigger] s[i] < modulus()
}

/// The coefficients of `(prev + X * t(X)) * d - root * d * t(X)` over the
/// integers.
pub open spec fn shifted_product(t: Seq<int>, prev: int, root: int, d: int) -> Seq<int> {
    Seq::new(
        (t.len() + 1) as nat,
        |i: int|
            d * ((if i == 0 { prev } else { t[i - 1] }) - root * (if i < t.len() { t[i] } else { 0 })),
    )
}

/// The value at `x` of the product of the first `m` factors
/// `(x - x_k) / (x_j - x_k)` of the `j`-th basis polynomial, over the
/// integers.
pub open spec fn basis_value(points: Seq<int>, j: int, m: nat, x: int) -> int
    decreases m,
{
    if m == 0 {
        1
    } else {
        let x_k = other_point(points, j, m - 1);
        basis_value(points, j, (m - 1) as nat, x) * ((x - x_k) * field_inv(fsub(points[j], x_k)))
    }
}

proof fn lemma_shifted_product_eval(t: Seq<int>, prev: int, root: int, d: int, x: int)
    ensures
        poly_eval(shifted_product(t, prev, root, d), x) == d * (prev + x * poly_eval(t, x) - root
            * poly_eval(t, x)),
    decreases t.len(),
{
    let v = shifted_product(t, prev, root, d);
    if t.len() == 0 {
        assert(v.skip(1).len() == 0);
        assert(poly_eval(v.skip(1), x) == 0);
        assert(v[0] == d * (prev - root * 0));
        assert(poly_eval(v, x) == v[0] + x * 0);
        assert(d * (prev - root * 0) + x * 0 == d * (prev + x * 0 - root * 0)) by (nonlinear_arith);
    } else {
        let rest = t.skip(1);
        assert(v.skip(1) =~= shifted_product(rest, t[0], root, d));
        lemma_shifted_product_eval(rest, t[0], root, d, x);
        let e = poly_eval(rest, x);
        assert(v[0] == d * (prev - root * t[0]));
        assert(poly_eval(t, x) == t[0] + x * e);
        let a = t[0];
        let re = root * e;
        let xe = x * e;
        let inner = a + xe - re;
        assert(x * inner == x * a + x * xe - x * re) by (nonlinear_arith)
            requires
                inner == a + xe - re,
        ;
        assert(root * (a + xe) == root * a + root * xe) by (nonlinear_arith);
        assert(x * (a + xe) == x * a + x * xe) by (nonlinear_arith);
        assert(x * re == root * xe) by (nonlinear_arith)
            requires
                re == root * e,
                xe == x * e,
        ;
        assert(x * (d * inner) == d * (x * inner)) by (nonlinear_arith);
        let lhs = prev - root * a;
        let mid = x * inner;
        assert(d * lhs + d * mid == d * (lhs + mid)) by (nonlinear_arith);
        assert(lhs + mid == prev + x * (a + xe) - root * (a + xe));
    }
}

proof fn lemma_product_coefficient(a: int, b: int, root: int, d: int)
    ensures
        fadd(fmul(a, fmul(fneg(d), root)), fmul(b, d)) % modulus() == (d * (b - root * a))
            % modulus(),
{
    lemma_modulus_large();
    lemma_field_ops_reduce(-d, root);
    lemma_field_ops_reduce(a, (-d) * root);
    lemma_field_ops_reduce(a * ((-d) * root), b * d);
    lemma_mod_twice(a * ((-d) * root) + b * d, modulus());
    assert(a * ((-d) * root) + b * d == d * (b - root * a)) by (nonlinear_arith);
}

/// Multiplying a polynomial by `(X - root) * d` multiplies its value at
/// `x` by `(x - root) * d`, in the field.
pub proof fn lemma_scale_by_linear_eval(t: Seq<int>, root: int, d: int, x: int)
    ensures
        poly_eval(scale_by_linear(t, root, d), x) % modulus() == (poly_eval(t, x) * ((x - root)
            * d)) % modulus(),
{
    let c = scale_by_linear(t, root, d);
    let u = shifted_product(t, 0, root, d);
    assert forall|i: int| 0 <= i < c.len() implies c[i] % modulus() == u[i] % modulus() by {
        lemma_product_coefficient(
            if i < t.len() { t[i] } else { 0 },
            if i > 0 { t[i - 1] } else { 0 },
            root,
            d,
        );
    }
    lemma_poly_eval_congruent(c, u, x);
    lemma_shifted_product_eval(t, 0, root, d, x);
    let e = poly_eval(t, x);
    assert(d * (0 + x * e - root * e) == e * ((x - root) * d)) by (nonlinear_arith);
}

/// The value of a basis polynomial at `x` is the product of its factors'
/// values, in the field.
pub proof fn lemma_basis_eval(points: Seq<int>, j: int, m: nat, x: int)
    ensures
        poly_eval(basis(points, j, m), x) % modulus() == basis_value(points, j, m, x)
            % modulus(),
    decreases m,
{
    if m == 0 {
        let b = basis(points, j, 0);
        assert(b.skip(1).len() == 0);
        assert(poly_eval(b.skip(1), x) == 0);
        assert(poly_eval(b, x) == 1 + x * 0);
    } else {
        let x_k = other_point(points, j, m - 1);
        let d = field_inv(fsub(points[j], x_k));
        let prev = basis(points, j, (m - 1) as nat);
        lemma_basis_eval(points, j, (m - 1) as nat, x);
        lemma_scale_by_linear_eval(prev, x_k, d, x);
        lemma_field_ops_reduce(poly_eval(prev, x), (x - x_k) * d);
        lemma_field_ops_reduce(basis_value(points, j, (m - 1) as nat, x), (x - x_k) * d);
    }
}

proof fn lemma_basis_value_zero(points: Seq<int>, j: int, m: nat, t: int)
    requires
        0 <= t < m,
    ensures
        basis_value(points, j, m, other_point(points, j, t)) % modulus() == 0,
    decreases m,
{
    lemma_modulus_large();
    let x = other_point(points, j, t);
    let x_k = other_point(points, j, m - 1);
    let d = field_inv(fsub(points[j], x_k));
    let before = basis_value(points, j, (m - 1) as nat, x);
    if m - 1 == t {
        assert(before * ((x - x_k) * d) == 0) by (nonlinear_arith)
            requires
                x - x_k == 0,
        ;
    } else {
        lemma_basis_value_zero(points, j, (m - 1) as nat, t);
        lemma_field_ops_reduce(before, (x - x_k) * d);
        assert(0 * ((x - x_k) * d) == 0) by (nonlinear_arith);
    }
}

proof fn lemma_basis_value_one(points: Seq<int>, j: int, m: nat)
    requires
        0 <= j < points.len(),
        m <= points.len() - 1,
        differences_invertible(points),
    ensures
        basis_value(points, j, m, points[j]) % modulus() == 1,
    decreases m,
{
    lemma_modulus_large();
    lemma_small_mod(1, modulus() as nat);
    if m > 0 {
        let x = points[j];
        let k = if m - 1 < j { m - 1 } else { m as int };
        let x_k = other_point(points, j, m - 1);
        assert(x_k == points[k]);
        let d = field_inv(fsub(x, x_k));
        let before = basis_value(points, j, (m - 1) as nat, x);
        lemma_basis_value_one(points, j, (m - 1) as nat);
        assert(fmul(fsub(points[j], points[k]), d) == 1);
        lemma_field_ops_reduce(x - x_k, d);
        lemma_field_ops_reduce(before, (x - x_k) * d);
        assert(1 * 1 == 1);
    }
}

/// The `j`-th basis polynomial is 1 at the `j`-th point and 0 at the others,
/// in the field.
pub proof fn lemma_basis_at_points(points: Seq<int>, j: int, i: int)
    requires
        0 <= j < points.len(),
        0 <= i < points.len(),
        differences_invertible(points),
    ensures
        poly_eval(basis(points, j, (points.len() - 1) as nat), points[i]) % modulus() == (if i
            == j {
            1int
        } else {
            0int
        }),
{
    let m = (points.len() - 1) as nat;
    lemma_basis_eval(points, j, m, points[i]);
    if i == j {
        lemma_basis_value_one(points, j, m);
    } else {
        let t = if i < j { i } else { i - 1 };
        assert(other_point(points, j, t) == points[i]);
        lemma_basis_value_zero(points, j, m, t);
    }
}

/// The value of the coefficient-wise sum `p + e * b` is the value of `p`
/// plus `e` times that of `b`.
pub proof fn lemma_combination_exact(p: Seq<int>, b: Seq<int>, e: int, x: int)
    requires
        p.len() == b.len(),
    ensures
        poly_eval(Seq::new(p.len(), |i: int| p[i] + b[i] * e), x) == poly_eval(p, x) + e
            * poly_eval(b, x),
    decreases p.len(),
{
    let w = Seq::new(p.len(), |i: int| p[i] + b[i] * e);
    if p.len() > 0 {
        let w1 = Seq::new(p.skip(1).len(), |i: int| p.skip(1)[i] + b.skip(1)[i] * e);
        assert(w.skip(1) =~= w1);
        lemma_combination_exact(p.skip(1), b.skip(1), e, x);
        let ep = poly_eval(p.skip(1), x);
        let eb = poly_eval(b.skip(1), x);
        assert(p[0] + b[0] * e + x * (ep + e * eb) == (p[0] + x * ep) + e * (b[0] + x * eb))
            by (nonlinear_arith);
    }
}

proof fn lemma_zero_polynomial(n: nat, x: int)
    ensures
        poly_eval(Seq::new(n, |i: int| 0int), x) == 0,
    decreases n,
{
    let z = Seq::new(n, |i: int| 0int);
    if n > 0 {
        assert(z.skip(1) =~= Seq::new((n - 1) as nat, |i: int| 0int));
        lemma_zero_polynomial((n - 1) as nat, x);
        assert(0 + x * 0 == 0);
    }
}

proof fn lemma_sum_at_points(points: Seq<int>, evals: Seq<int>, j: nat, i: int)
    requires
        points.len() == evals.len(),
        0 <= i < points.len(),
        j <= points.len(),
        all_reduced(evals),
        differences_invertible(points),
    ensures
        interpolation_sum(points, evals, j).len() == points.len(),
        poly_eval(interpolation_sum(points, evals, j), points[i]) % modulus() == (if i < j {
            evals[i]
        } else {
            0int
        }),
    decreases j,
{
    lemma_modulus_large();
    let x = points[i];
    if j == 0 {
        lemma_zero_polynomial(points.len(), x);
        assert(interpolation_sum(points, evals, 0) =~= Seq::new(points.len(), |k: int| 0int));
        lemma_small_mod(0, modulus() as nat);
    } else {
        let prev = interpolation_sum(points, evals, (j - 1) as nat);
        let b = basis(points, j - 1, (points.len() - 1) as nat);
        let e = evals[j - 1];
        let s = interpolation_sum(points, evals, j);
        lemma_sum_at_points(points, evals, (j - 1) as nat, i);
        lemma_basis_len(points, j - 1, (points.len() - 1) as nat);
        lemma_basis_at_points(points, j - 1, i);
        let w = Seq::new(prev.len(), |k: int| prev[k] + b[k] * e);
        assert forall|k: int| 0 <= k < s.len() implies s[k] % modulus() == w[k] % modulus() by {
            lemma_field_ops_reduce(prev[k], b[k] * e);
            lemma_mod_twice(prev[k] + b[k] * e, modulus());
        }
        lemma_poly_eval_congruent(s, w, x);
        lemma_combination_exact(prev, b, e, x);
        let ep = poly_eval(prev, x);
        let eb = poly_eval(b, x);
        lemma_field_ops_reduce(ep, e * eb);
        lemma_field_ops_reduce(e, eb);
        assert(evals[i] % modulus() == evals[i]) by {
            lemma_small_mod(evals[i] as nat, modulus() as nat);
        }
        assert(poly_eval(s, x) % modulus() == fadd(ep % modulus(), fmul(e, eb % modulus())));
        lemma_small_mod(0, modulus() as nat);
        if i == j - 1 {
            assert(e * 1 == e) by (nonlinear_arith);
            assert(fmul(e, 1) == e);
        } else {
            assert(e * 0 == 0) by (nonlinear_arith);
            assert(fmul(e, 0) == 0);
        }
    }
}

/// The interpolation polynomial takes the value `evals[i]` at `points[i]`,
/// in the field, where the difference of any two points has its inverse.
pub proof fn lemma_interpolation_matches(points: Seq<int>, evals: Seq<int>, i: int)
    requires
        points.len() == evals.len(),
        0 <= i < points.len(),
        all_reduced(evals),
        differences_invertible(points),
    ensures
        interpolation(points, evals).len() == points.len(),
        poly_eval(interpolation(points, evals), points[i]) % modulus() == evals[i],
{
    lemma_modulus_large();
    if points.len() == 1 {
        let p = interpolation(points, evals);
        assert(p.skip(1).len() == 0);
        assert(poly_eval(p.skip(1), points[i]) == 0);
        assert(poly_eval(p, points[i]) == evals[0] + points[i] * 0);
        lemma_small_mod(evals[0] as nat, modulus() as nat);
    } else {
        lemma_sum_at_points(points, evals, points.len(), i);
    }
}


/// The polynomial has one reduced coefficient for each point and takes the
/// value `evals[i]` at `points[i]`, in the field.
pub open spec fn interpolates(p: Seq<int>, points: Seq<int>, evals: Seq<int>) -> bool {
    &&& p.len() == points.len()
    &&& all_reduced(p)
    &&& forall|i: int|
        0 <= i < points.len() ==> poly_eval(p, #[trigger] points[i]) % modulus() == evals[i]
}

/// A polynomial with as many coefficients as it has roots among points
/// whose differences have inverses is zero in the field, coefficient by
/// coefficient.
pub proof fn lemma_roots_force_zero(r: Seq<int>, points: Seq<int>)
    requires
        r.len() == points.len(),
        differences_invertible(points),
        forall|i: int| 0 <= i < points.len() ==> poly_eval(r, #[trigger] points[i]) % modulus() == 0,
    ensures
        forall|k: int| 0 <= k < r.len() ==> #[trigger] r[k] % modulus() == 0,
    decreases r.len(),
{
    lemma_modulus_large();
    lemma_small_mod(0, modulus() as nat);
    let m = modulus();
    let n = r.len() as int;
    if n > 0 {
        let x0 = points[0];
        let s = linear_quotient(r, x0);
        let rest = points.skip(1);
        assert forall|a: int, b: int|
            0 <= a < rest.len() && 0 <= b < rest.len() && a != b implies fmul(
            fsub(#[trigger] rest[a], #[trigger] rest[b]),
            field_inv(fsub(rest[a], rest[b])),
        ) == 1 by {
            assert(rest[a] == points[a + 1] && rest[b] == points[b + 1]);
        }
        assert forall|i: int| 0 <= i < rest.len() implies poly_eval(s, #[trigger] rest[i]) % m
            == 0 by {
            let x = rest[i];
            assert(x == points[i + 1]);
            let d = x - x0;
            let inv = field_inv(fsub(x, x0));
            let sx = poly_eval(s, x);
            lemma_linear_quotient(r, x0, x);
            assert(poly_eval(r, points[i + 1]) % m == 0);
            assert(poly_eval(r, points[0]) % m == 0);
            lemma_field_ops_reduce(poly_eval(r, x), poly_eval(r, x0));
            assert((sx * d) % m == 0);
            assert(fmul(fsub(points[i + 1], points[0]), inv) == 1);
            lemma_field_ops_reduce(d, inv);
            assert((d * inv) % m == 1);
            lemma_field_ops_reduce(sx, d * inv);
            assert(sx * 1 == sx);
            assert(sx % m == (sx * (d * inv)) % m);
            assert(sx * (d * inv) == (sx * d) * inv) by (nonlinear_arith);
            lemma_field_ops_reduce(sx * d, inv);
            assert(0 * inv == 0);
        }
        lemma_roots_force_zero(s, rest);
        assert forall|k: int| 0 <= k < n implies #[trigger] r[k] % m == 0 by {
            let t = poly_eval(r.skip(k), x0);
            let u = poly_eval(r.skip(k + 1), x0);
            assert(r.skip(k).skip(1) =~= r.skip(k + 1));
            assert(r.skip(k)[0] == r[k]);
            assert(t == r[k] + x0 * u);
            if k == 0 {
                assert(r.skip(0) =~= r);
                assert(poly_eval(r, points[0]) % m == 0);
            } else {
                assert(s[k - 1] == t);
                assert(s[k - 1] % m == 0);
            }
            if k < n - 1 {
                assert(s[k] == u);
                assert(s[k] % m == 0);
            } else {
                assert(r.skip(k + 1).len() == 0);
            }
            lemma_field_ops_reduce(x0, u);
            assert(x0 * 0 == 0);
            lemma_field_ops_reduce(t, x0 * u);
            assert(r[k] == t - x0 * u);
        }
    }
}

/// The coefficients of the interpolation polynomial are reduced.
pub proof fn lemma_interpolation_reduced(points: Seq<int>, evals: Seq<int>)
    requires
        points.len() == evals.len(),
        all_reduced(evals),
    ensures
        all_reduced(interpolation(points, evals)),
{
    lemma_modulus_large();
    let q = interpolation(points, evals);
    assert forall|i: int| 0 <= i < q.len() implies 0 <= #[trigger] q[i] < modulus() by {
        if points.len() != 1 {
            let n = points.len();
            let prev = interpolation_sum(points, evals, (n - 1) as nat);
            let b = basis(points, n - 1, (n - 1) as nat);
            lemma_mod_bound(prev[i] + fmul(b[i], evals[n - 1]), modulus());
        }
    }
}

/// Interpolation gives back the polynomial: a polynomial with reduced
/// coefficients, one for each point, is the interpolation polynomial through
/// its own values at the points, where the differences of the points have
/// inverses.
pub proof fn lemma_interpolation_unique(p: Seq<int>, points: Seq<int>, evals: Seq<int>)
    requires
        points.len() == evals.len(),
        all_reduced(evals),
        differences_invertible(points),
        interpolates(p, points, evals),
    ensures
        interpolation(points, evals) == p,
{
    lemma_modulus_large();
    let m = modulus();
    let q = interpolation(points, evals);
    let n = points.len();
    if n == 0 {
        assert(q =~= p);
    } else {
        lemma_interpolation_matches(points, evals, 0);
        lemma_interpolation_reduced(points, evals);
        let r = Seq::new(q.len(), |k: int| q[k] + p[k] * (-1));
        assert forall|i: int| 0 <= i < n implies poly_eval(r, #[trigger] points[i]) % m == 0 by {
            let x = points[i];
            lemma_interpolation_matches(points, evals, i);
            lemma_combination_exact(q, p, -1, x);
            lemma_field_ops_reduce(poly_eval(q, x), poly_eval(p, x));
            assert(poly_eval(r, x) == poly_eval(q, x) - poly_eval(p, x));
            lemma_small_mod(0, m as nat);
        }
        lemma_roots_force_zero(r, points);
        assert forall|k: int| 0 <= k < n implies q[k] == p[k] by {
            assert(r[k] % m == 0);
            assert(r[k] == q[k] - p[k]);
            if q[k] != p[k] {
                lemma_distinct_difference(q[k], p[k]);
            }
        }
        assert(q =~= p);
    }
}

} // verus!
