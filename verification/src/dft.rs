//! The transform of field elements as evaluation: its `i`-th output is the
//! value of the input, read as a polynomial, at the `i`-th power of the root.

use crate::fft::evens;
use crate::fft::lemma_pow_of_square;
use crate::fft::odds;
use crate::fft::transform;
use crate::field::fadd;
use crate::field::fmul;
use crate::field::fsub;
use crate::field::lemma_field_ops_reduce;
use crate::field::lemma_modulus_large;
use crate::field::modulus;
use crate::field::Fe;
use crate::lagrange::all_reduced;
use crate::lagrange::lemma_combination_exact;
use crate::poly::lemma_poly_eval_concat;
use crate::poly::lemma_poly_eval_congruent;
use crate::poly::poly_eval;
use vstd::arithmetic::div_mod::*;
use vstd::arithmetic::power::*;
use vstd::arithmetic::power2::*;
use vstd::prelude::*;

verus! {

/// A polynomial with an even number of coefficients is its even part at
/// `x^2` plus `x` times its odd part at `x^2`.
pub proof fn lemma_even_odd_split(a: Seq<int>, x: int)
    requires
        a.len() % 2 == 0,
    ensures
        poly_eval(a, x) == poly_eval(evens(a), x * x) + x * poly_eval(odds(a), x * x),
    decreases a.len(),
{
    let ev = evens(a);
    let od = odds(a);
    if a.len() == 0 {
        assert(ev.len() == 0 && od.len() == 0);
        assert(x * 0 == 0);
    } else {
        let r = a.skip(2);
        assert(a.skip(1).skip(1) =~= r);
        assert(ev.skip(1) =~= evens(r));
        assert(od.skip(1) =~= odds(r));
        lemma_even_odd_split(r, x);
        let pr = poly_eval(r, x);
        let er = poly_eval(evens(r), x * x);
        let or = poly_eval(odds(r), x * x);
        assert(a.skip(1)[0] == a[1]);
        assert(poly_eval(a.skip(1), x) == a[1] + x * pr);
        assert(poly_eval(a, x) == a[0] + x * (a[1] + x * pr));
        assert(ev[0] == a[0] && od[0] == a[1]);
        assert(poly_eval(ev, x * x) == a[0] + (x * x) * er);
        assert(poly_eval(od, x * x) == a[1] + (x * x) * or);
        let xx = x * x;
        assert(x * (a[1] + x * pr) == x * a[1] + xx * pr) by (nonlinear_arith)
            requires
                xx == x * x,
        ;
        assert(xx * (er + x * or) == xx * er + x * (xx * or)) by (nonlinear_arith);
        assert(x * (a[1] + xx * or) == x * a[1] + x * (xx * or)) by (nonlinear_arith);
    }
}

/// A polynomial takes values that agree in the field at points that agree
/// in the field.
pub proof fn lemma_poly_eval_congruent_point(a: Seq<int>, x: int, y: int)
    requires
        x % modulus() == y % modulus(),
    ensures
        poly_eval(a, x) % modulus() == poly_eval(a, y) % modulus(),
    decreases a.len(),
{
    if a.len() > 0 {
        lemma_poly_eval_congruent_point(a.skip(1), x, y);
        let ex = poly_eval(a.skip(1), x);
        let ey = poly_eval(a.skip(1), y);
        lemma_field_ops_reduce(x, ex);
        lemma_field_ops_reduce(y, ey);
        lemma_field_ops_reduce(a[0], x * ex);
        lemma_field_ops_reduce(a[0], y * ey);
        assert(fmul(x, ex) == fmul(y, ey));
        assert(fadd(a[0], x * ex) == fadd(a[0], y * ey));
    }
}

/// The transform of field elements evaluates: where `omega` raised to half
/// the length is -1 in the field, the `i`-th output is the value of the
/// input, read as a polynomial, at `omega^i`.
pub proof fn lemma_transform_evaluates(a: Seq<int>, omega: int, log_n: nat, i: int)
    requires
        a.len() == pow2(log_n),
        all_reduced(a),
        0 <= i < a.len(),
        log_n > 0 ==> pow(omega, (a.len() / 2) as nat) % modulus() == modulus() - 1,
    ensures
        transform::<Fe>(a, omega, log_n).len() == a.len(),
        transform::<Fe>(a, omega, log_n)[i] == poly_eval(a, pow(omega, i as nat)) % modulus(),
    decreases log_n,
{
    lemma_modulus_large();
    let m = modulus();
    if log_n == 0 {
        lemma2_to64();
        lemma_pow0(omega);
        assert(a.skip(1).len() == 0);
        assert(poly_eval(a.skip(1), 1) == 0);
        assert(poly_eval(a, 1) == a[0] + 1 * 0);
        lemma_small_mod(a[0] as nat, m as nat);
    } else {
        lemma_pow2_unfold(log_n);
        lemma_pow2_pos((log_n - 1) as nat);
        let h = (a.len() / 2) as int;
        let sq = fmul(omega, omega);
        let ev = evens(a);
        let od = odds(a);
        let idx = if i < h { i } else { i - h };
        assert(all_reduced(ev));
        assert(all_reduced(od));
        if log_n - 1 > 0 {
            lemma_pow2_unfold((log_n - 1) as nat);
            lemma_pow_of_square(omega, (h / 2) as nat);
            assert(2 * (h / 2) == h);
        }
        lemma_transform_evaluates(ev, sq, (log_n - 1) as nat, idx);
        lemma_transform_evaluates(od, sq, (log_n - 1) as nat, idx);
        let e = transform::<Fe>(ev, sq, (log_n - 1) as nat);
        let o = transform::<Fe>(od, sq, (log_n - 1) as nat);
        let y = pow(omega, idx as nat);
        lemma_pow_of_square(omega, idx as nat);
        lemma_pow_adds(omega, idx as nat, idx as nat);
        assert(pow(sq, idx as nat) % m == (y * y) % m);
        lemma_poly_eval_congruent_point(ev, pow(sq, idx as nat), y * y);
        lemma_poly_eval_congruent_point(od, pow(sq, idx as nat), y * y);
        let ee = poly_eval(ev, y * y);
        let eo = poly_eval(od, y * y);
        assert(e[idx] == ee % m);
        assert(o[idx] == eo % m);
        lemma_field_ops_reduce(eo, y);
        lemma_field_ops_reduce(ee, eo * y);
        let out = transform::<Fe>(a, omega, log_n)[i];
        if i < h {
            assert(out == fadd(e[idx], fmul(o[idx], y % m)));
            lemma_even_odd_split(a, y);
            assert(eo * y == y * eo) by (nonlinear_arith);
        } else {
            assert(out == fsub(e[idx], fmul(o[idx], y % m)));
            lemma_even_odd_split(a, -y);
            assert((-y) * (-y) == y * y) by (nonlinear_arith);
            assert(ee + (-y) * eo == ee - eo * y) by (nonlinear_arith);
            assert(poly_eval(a, -y) == ee - eo * y);
            let w = pow(omega, h as nat);
            lemma_pow_adds(omega, h as nat, idx as nat);
            assert(pow(omega, i as nat) == w * y);
            lemma_field_ops_reduce(w, y);
            assert((w * y) % m == ((m - 1) * y) % m);
            assert((m - 1) * y == m * y + (-y)) by (nonlinear_arith);
            lemma_mod_multiples_vanish(y, -y, m);
            lemma_poly_eval_congruent_point(a, pow(omega, i as nat), -y);
        }
    }
}


/// Multiplying every coefficient by `c` multiplies the value by `c`.
pub proof fn lemma_scalar_eval(s: Seq<int>, c: int, x: int)
    ensures
        poly_eval(Seq::new(s.len(), |j: int| c * s[j]), x) == c * poly_eval(s, x),
    decreases s.len(),
{
    let t = Seq::new(s.len(), |j: int| c * s[j]);
    if s.len() == 0 {
        assert(c * 0 == 0);
    } else {
        let t1 = Seq::new(s.skip(1).len(), |j: int| c * s.skip(1)[j]);
        assert(t.skip(1) =~= t1);
        lemma_scalar_eval(s.skip(1), c, x);
        let e = poly_eval(s.skip(1), x);
        assert(c * s[0] + x * (c * e) == c * (s[0] + x * e)) by (nonlinear_arith);
    }
}

/// Multiplying the `j`-th coefficient by `w^j` is the same as evaluating at
/// `w * x`.
pub proof fn lemma_twist_eval(o: Seq<int>, w: int, x: int)
    ensures
        poly_eval(Seq::new(o.len(), |j: int| o[j] * pow(w, j as nat)), x) == poly_eval(o, w * x),
    decreases o.len(),
{
    let tw = Seq::new(o.len(), |j: int| o[j] * pow(w, j as nat));
    if o.len() > 0 {
        let rest = o.skip(1);
        let t1 = Seq::new(rest.len(), |j: int| rest[j] * pow(w, j as nat));
        let t2 = Seq::new(t1.len(), |j: int| w * t1[j]);
        assert forall|j: int| 0 <= j < t2.len() implies tw.skip(1)[j] == t2[j] by {
            let pw = pow(w, j as nat);
            assert(pow(w, (j + 1) as nat) == w * pw) by {
                reveal(pow);
            }
            assert(o[j + 1] * (w * pw) == w * (o[j + 1] * pw)) by (nonlinear_arith);
        }
        assert(tw.skip(1) =~= t2);
        lemma_scalar_eval(t1, w, x);
        lemma_twist_eval(rest, w, x);
        lemma_pow0(w);
        let q = poly_eval(rest, w * x);
        assert(tw[0] == o[0] * 1);
        assert(x * (w * q) == (w * x) * q) by (nonlinear_arith);
    }
}

/// The powers of -1 in the field alternate between 1 and -1.
pub proof fn lemma_pow_minus_one(g: int, i: nat)
    requires
        g % modulus() == modulus() - 1,
    ensures
        pow(g, i) % modulus() == (if i % 2 == 0 {
            1int
        } else {
            modulus() - 1
        }),
    decreases i,
{
    lemma_modulus_large();
    let m = modulus();
    lemma_small_mod(1, m as nat);
    if i == 0 {
        lemma_pow0(g);
    } else {
        lemma_pow_minus_one(g, (i - 1) as nat);
        let prev = pow(g, (i - 1) as nat);
        assert(pow(g, i) == g * prev) by {
            reveal(pow);
        }
        lemma_field_ops_reduce(g, prev);
        if (i - 1) % 2 == 0 {
            assert((m - 1) * 1 == m - 1);
            lemma_small_mod((m - 1) as nat, m as nat);
        } else {
            assert((m - 1) * (m - 1) == m * (m - 2) + 1) by (nonlinear_arith);
            lemma_mod_multiples_vanish(m - 2, 1, m);
        }
    }
}

/// The transform keeps the length and gives reduced values.
pub proof fn lemma_transform_reduced(a: Seq<int>, omega: int, log_n: nat)
    requires
        all_reduced(a),
    ensures
        transform::<Fe>(a, omega, log_n).len() == a.len(),
        all_reduced(transform::<Fe>(a, omega, log_n)),
{
    lemma_modulus_large();
    let t = transform::<Fe>(a, omega, log_n);
    if log_n > 0 {
        let e = transform::<Fe>(evens(a), fmul(omega, omega), (log_n - 1) as nat);
        let o = transform::<Fe>(odds(a), fmul(omega, omega), (log_n - 1) as nat);
        let half = a.len() / 2;
        assert forall|i: int| 0 <= i < t.len() implies 0 <= #[trigger] t[i] < modulus() by {
            if i < half {
                lemma_mod_bound(
                    e[i] + fmul(o[i], pow(omega, i as nat) % modulus()),
                    modulus(),
                );
            } else {
                lemma_mod_bound(
                    e[i - half] - fmul(o[i - half], pow(omega, (i - half) as nat) % modulus()),
                    modulus(),
                );
            }
        }
    }
}

/// The transform undoes the inverse transform up to the factor `n`: where
/// `omega_inv` is the inverse of `omega` and `omega` raised to half the
/// length is -1 in the field, the transform with `omega` of the transform
/// with `omega_inv` of `a` is `a` times the length, in the field.
pub proof fn lemma_transform_round_trip(
    a: Seq<int>,
    omega: int,
    omega_inv: int,
    log_n: nat,
    i: int,
)
    requires
        a.len() == pow2(log_n),
        all_reduced(a),
        0 <= i < a.len(),
        fmul(omega, omega_inv) == 1,
        log_n > 0 ==> pow(omega, (a.len() / 2) as nat) % modulus() == modulus() - 1,
    ensures
        transform::<Fe>(transform::<Fe>(a, omega_inv, log_n), omega, log_n)[i] == fmul(
            a.len() as int,
            a[i],
        ),
    decreases log_n,
{
    lemma_modulus_large();
    let m = modulus();
    if log_n == 0 {
        lemma2_to64();
        assert(1 * a[i] == a[i]);
        lemma_small_mod(a[i] as nat, m as nat);
    } else {
        lemma_pow2_unfold(log_n);
        lemma_pow2_pos((log_n - 1) as nat);
        let n = a.len() as int;
        let h = n / 2;
        let sq = fmul(omega, omega);
        let sqi = fmul(omega_inv, omega_inv);
        let ev = evens(a);
        let od = odds(a);
        let b = transform::<Fe>(a, omega_inv, log_n);
        let e = transform::<Fe>(ev, sqi, (log_n - 1) as nat);
        let o = transform::<Fe>(od, sqi, (log_n - 1) as nat);
        assert(all_reduced(ev));
        assert(all_reduced(od));
        lemma_transform_reduced(a, omega_inv, log_n);
        lemma_transform_reduced(ev, sqi, (log_n - 1) as nat);
        lemma_transform_reduced(od, sqi, (log_n - 1) as nat);
        // the outer transform evaluates b at omega^i
        lemma_transform_evaluates(b, omega, log_n, i);
        let x = pow(omega, i as nat);
        // b is a low and a high block
        let lo = b.subrange(0, h);
        let hi = b.subrange(h, n);
        assert(b =~= lo + hi);
        lemma_poly_eval_concat(lo, hi, x);
        let tw = Seq::new(o.len(), |j: int| o[j] * pow(omega_inv, j as nat));
        let lo_z = Seq::new(e.len(), |j: int| e[j] + tw[j] * 1);
        let hi_z = Seq::new(e.len(), |j: int| e[j] + tw[j] * (-1));
        assert forall|j: int| 0 <= j < h implies lo[j] % m == lo_z[j] % m by {
            lemma_field_ops_reduce(o[j], pow(omega_inv, j as nat));
            lemma_field_ops_reduce(e[j], o[j] * pow(omega_inv, j as nat));
            lemma_mod_twice(e[j] + o[j] * pow(omega_inv, j as nat), m);
        }
        assert forall|j: int| 0 <= j < h implies hi[j] % m == hi_z[j] % m by {
            lemma_field_ops_reduce(o[j], pow(omega_inv, j as nat));
            lemma_field_ops_reduce(e[j], o[j] * pow(omega_inv, j as nat));
            lemma_mod_twice(e[j] - o[j] * pow(omega_inv, j as nat), m);
            assert(b[j + h] == hi[j]);
        }
        lemma_poly_eval_congruent(lo, lo_z, x);
        lemma_poly_eval_congruent(hi, hi_z, x);
        lemma_combination_exact(e, tw, 1, x);
        lemma_combination_exact(e, tw, -1, x);
        lemma_twist_eval(o, omega_inv, x);
        let pe = poly_eval(e, x);
        let pt = poly_eval(o, omega_inv * x);
        assert(poly_eval(lo_z, x) == pe + 1 * pt);
        assert(poly_eval(hi_z, x) == pe + (-1) * pt);
        // x^h is 1 or -1
        let xh = pow(x, h as nat);
        lemma_pow_multiplies(omega, i as nat, h as nat);
        lemma_pow_multiplies(omega, h as nat, i as nat);
        assert(i * h == h * i) by (nonlinear_arith);
        lemma_pow_minus_one(pow(omega, h as nat), i as nat);
        // the sub-transforms
        let idx = i / 2;
        if log_n - 1 > 0 {
            lemma_pow2_unfold((log_n - 1) as nat);
            lemma_pow_of_square(omega, (h / 2) as nat);
            assert(2 * (h / 2) == h);
        }
        lemma_field_ops_reduce(omega * omega, omega_inv * omega_inv);
        lemma_field_ops_reduce(omega * omega_inv, omega * omega_inv);
        assert((omega * omega) * (omega_inv * omega_inv) == (omega * omega_inv) * (omega
            * omega_inv)) by (nonlinear_arith);
        lemma_small_mod(1, m as nat);
        assert(fmul(sq, sqi) == 1);
        lemma_pow_of_square(omega, idx as nat);
        let y = pow(sq, idx as nat);
        let plo = poly_eval(lo, x);
        let phi = poly_eval(hi, x);
        lemma_field_ops_reduce(xh, phi);
        lemma_field_ops_reduce(plo, xh * phi);
        lemma_field_ops_reduce(plo, phi);
        if i % 2 == 0 {
            assert(i == 2 * idx);
            // value: plo + phi = 2 pe
            lemma_transform_round_trip(ev, sq, sqi, (log_n - 1) as nat, idx);
            lemma_transform_evaluates(e, sq, (log_n - 1) as nat, idx);
            lemma_poly_eval_congruent_point(e, y, x);
            assert(ev[idx] == a[i]);
            assert(pe % m == fmul(h, a[i]));
            assert(xh % m == 1);
            assert(fmul(1, phi) == (xh * phi) % m);
            assert(1 * phi == phi);
            assert((plo + xh * phi) % m == (plo + phi) % m);
            lemma_field_ops_reduce(pe + 1 * pt, pe + (-1) * pt);
            assert((pe + 1 * pt) + (pe + (-1) * pt) == 2 * pe) by (nonlinear_arith);
            lemma_field_ops_reduce(2, pe);
            lemma_field_ops_reduce(2, h * a[i]);
            assert(2 * (h * a[i]) == n * a[i]) by (nonlinear_arith)
                requires
                    n == 2 * h,
            ;
        } else {
            assert(i == 2 * idx + 1);
            lemma_transform_round_trip(od, sq, sqi, (log_n - 1) as nat, idx);
            lemma_transform_evaluates(o, sq, (log_n - 1) as nat, idx);
            // omega_inv * x is omega^(2 idx) in the field
            let x2 = pow(omega, (2 * idx) as nat);
            assert(x == omega * x2) by {
                reveal(pow);
            }
            assert(omega_inv * (omega * x2) == (omega * omega_inv) * x2) by (nonlinear_arith);
            lemma_field_ops_reduce(omega * omega_inv, x2);
            assert(1 * x2 == x2);
            assert((omega_inv * x) % m == x2 % m);
            lemma_poly_eval_congruent_point(o, y, omega_inv * x);
            assert(od[idx] == a[i]);
            assert(pt % m == fmul(h, a[i]));
            assert(xh % m == m - 1);
            assert(fmul(m - 1, phi) == (xh * phi) % m);
            assert((m - 1) * phi == m * phi + (-phi)) by (nonlinear_arith);
            lemma_mod_multiples_vanish(phi, -phi, m);
            lemma_field_ops_reduce(plo, -phi);
            assert((plo + xh * phi) % m == (plo - phi) % m);
            lemma_sub_mod_noop(plo, phi, m);
            lemma_sub_mod_noop(pe + 1 * pt, pe + (-1) * pt, m);
            assert((pe + 1 * pt) - (pe + (-1) * pt) == 2 * pt) by (nonlinear_arith);
            lemma_field_ops_reduce(2, pt);
            lemma_field_ops_reduce(2, h * a[i]);
            assert(2 * (h * a[i]) == n * a[i]) by (nonlinear_arith)
                requires
                    n == 2 * h,
            ;
        }
    }
}

/// Every element times `c`, in the field.
pub open spec fn scaled_by(b: Seq<int>, c: int) -> Seq<int> {
    Seq::new(b.len(), |j: int| fmul(b[j], c))
}

/// The inverse transform, then every element scaled by the inverse of the
/// length, then the transform, gives back the sequence: where `omega_inv` is
/// the inverse of `omega`, `n_inv` that of the length, and `omega` raised to
/// half the length is -1 in the field.
pub proof fn lemma_inverse_then_forward(
    a: Seq<int>,
    omega: int,
    omega_inv: int,
    n_inv: int,
    log_n: nat,
    i: int,
)
    requires
        a.len() == pow2(log_n),
        all_reduced(a),
        0 <= i < a.len(),
        fmul(omega, omega_inv) == 1,
        fmul(a.len() as int, n_inv) == 1,
        log_n > 0 ==> pow(omega, (a.len() / 2) as nat) % modulus() == modulus() - 1,
    ensures
        transform::<Fe>(scaled_by(transform::<Fe>(a, omega_inv, log_n), n_inv), omega, log_n)[i]
            == a[i],
{
    lemma_modulus_large();
    let m = modulus();
    let n = a.len() as int;
    let b = transform::<Fe>(a, omega_inv, log_n);
    let c = scaled_by(b, n_inv);
    let x = pow(omega, i as nat);
    lemma_transform_reduced(a, omega_inv, log_n);
    assert forall|j: int| 0 <= j < c.len() implies 0 <= #[trigger] c[j] < m by {
        lemma_mod_bound(b[j] * n_inv, m);
    }
    lemma_transform_evaluates(c, omega, log_n, i);
    lemma_transform_evaluates(b, omega, log_n, i);
    lemma_transform_round_trip(a, omega, omega_inv, log_n, i);
    let cz = Seq::new(b.len(), |j: int| n_inv * b[j]);
    assert forall|j: int| 0 <= j < c.len() implies c[j] % m == cz[j] % m by {
        lemma_mod_twice(b[j] * n_inv, m);
        assert(b[j] * n_inv == n_inv * b[j]) by (nonlinear_arith);
    }
    lemma_poly_eval_congruent(c, cz, x);
    lemma_scalar_eval(b, n_inv, x);
    let pb = poly_eval(b, x);
    lemma_field_ops_reduce(n_inv, pb);
    lemma_field_ops_reduce(n_inv, n * a[i]);
    assert(n_inv * (n * a[i]) == (n * n_inv) * a[i]) by (nonlinear_arith);
    lemma_field_ops_reduce(n * n_inv, a[i]);
    assert(1 * a[i] == a[i]);
    lemma_small_mod(a[i] as nat, m as nat);
}

} // verus!
