//! The radix-2 Fourier transform over any group that the field acts on, and
//! the conversion of a basis of curve points to the Lagrange basis.

use crate::field::all_wf;
use crate::field::fadd;
use crate::field::fmul;
use crate::field::fp_add;
use crate::field::fp_mul;
use crate::field::fp_pow;
use crate::field::fp_root_of_unity;
use crate::field::fp_root_of_unity_inv;
use crate::field::fp_sub;
use crate::field::fp_two_adicity;
use crate::field::fp_two_inv;
use crate::field::fsub;
use crate::field::lemma_field_ops_reduce;
use crate::field::lemma_modulus_large;
use crate::field::modulus;
use crate::field::root_of_unity;
use crate::field::root_of_unity_inv;
use crate::field::two_inv;
use crate::field::Fe;
use crate::points::all_valid;
use crate::points::check_points;
use crate::points::curve_add;
use crate::points::curve_scale;
use crate::points::curve_sub;
use crate::points::point_difference;
use crate::points::point_scaled;
use crate::points::point_sum;
use crate::points::Point;
use crate::poly::powers;
use vstd::arithmetic::div_mod::*;
use vstd::arithmetic::power::*;
use vstd::arithmetic::power2::*;
use vstd::prelude::*;

verus! {

/// A group with the operations that the transform needs: sum, difference
/// and the action of the field. The transform works alike on field elements
/// and on curve points.
pub trait FftGroup: Copy {
    /// What an element is, mathematically.
    type Model;

    /// The element as a mathematical value.
    spec fn model(&self) -> Self::Model;

    /// The element is well formed.
    spec fn valid(&self) -> bool;

    /// The sum of two elements.
    spec fn sum(a: Self::Model, b: Self::Model) -> Self::Model;

    /// The first element less the second.
    spec fn difference(a: Self::Model, b: Self::Model) -> Self::Model;

    /// The element times the scalar.
    spec fn scaled(a: Self::Model, s: int) -> Self::Model;

    /// The sum of the two elements.
    fn group_add(&self, rhs: &Self) -> (r: Self)
        requires
            self.valid(),
            rhs.valid(),
        ensures
            r.valid(),
            r.model() == Self::sum(self.model(), rhs.model()),
    ;

    /// This element less the other.
    fn group_sub(&self, rhs: &Self) -> (r: Self)
        requires
            self.valid(),
            rhs.valid(),
        ensures
            r.valid(),
            r.model() == Self::difference(self.model(), rhs.model()),
    ;

    /// This element times the scalar.
    fn group_scale(&self, s: &Fe) -> (r: Self)
        requires
            self.valid(),
            s.wf(),
        ensures
            r.valid(),
            r.model() == Self::scaled(self.model(), s.value()),
    ;
}

impl FftGroup for Fe {
    type Model = int;

    open spec fn model(&self) -> int {
        self.value()
    }

    open spec fn valid(&self) -> bool {
        self.wf()
    }

    open spec fn sum(a: int, b: int) -> int {
        fadd(a, b)
    }

    open spec fn difference(a: int, b: int) -> int {
        fsub(a, b)
    }

    open spec fn scaled(a: int, s: int) -> int {
        fmul(a, s)
    }

    fn group_add(&self, rhs: &Self) -> (r: Self) {
        fp_add(self, rhs)
    }

    fn group_sub(&self, rhs: &Self) -> (r: Self) {
        fp_sub(self, rhs)
    }

    fn group_scale(&self, s: &Fe) -> (r: Self) {
        fp_mul(self, s)
    }
}

impl FftGroup for Point {
    type Model = Seq<u8>;

    open spec fn model(&self) -> Seq<u8> {
        self.bytes@
    }

    open spec fn valid(&self) -> bool {
        Point::valid(self)
    }

    open spec fn sum(a: Seq<u8>, b: Seq<u8>) -> Seq<u8> {
        point_sum(a, b)
    }

    open spec fn difference(a: Seq<u8>, b: Seq<u8>) -> Seq<u8> {
        point_difference(a, b)
    }

    open spec fn scaled(a: Seq<u8>, s: int) -> Seq<u8> {
        point_scaled(a, s)
    }

    fn group_add(&self, rhs: &Self) -> (r: Self) {
        curve_add(self, rhs)
    }

    fn group_sub(&self, rhs: &Self) -> (r: Self) {
        curve_sub(self, rhs)
    }

    fn group_scale(&self, s: &Fe) -> (r: Self) {
        curve_scale(self, s)
    }
}

/// The mathematical values of a sequence of group elements.
pub open spec fn models<G: FftGroup>(s: Seq<G>) -> Seq<G::Model> {
    Seq::new(s.len(), |i: int| s[i].model())
}

/// Every element of the sequence is well formed.
pub open spec fn all_elements_valid<G: FftGroup>(s: Seq<G>) -> bool {
    forall|i: int| 0 <= i < s.len() ==> (#[trigger] s[i]).valid()
}

/// The elements at the even places.
pub open spec fn evens<T>(a: Seq<T>) -> Seq<T> {
    Seq::new((a.len() / 2) as nat, |i: int| a[2 * i])
}

/// The elements at the odd places.
pub open spec fn odds<T>(a: Seq<T>) -> Seq<T> {
    Seq::new((a.len() / 2) as nat, |i: int| a[2 * i + 1])
}

/// The transform of `2^log_n` elements with the root `omega`, by
/// decimation in time: the transforms `e` of the even places and `o` of the
/// odd places with the root `omega^2` are joined as `e[i] + omega^i * o[i]`
/// in the lower half and `e[i] - omega^i * o[i]` in the upper half. No
/// factor `1 / n` is applied.
pub open spec fn transform<G: FftGroup>(a: Seq<G::Model>, omega: int, log_n: nat) -> Seq<G::Model>
    decreases log_n,
{
    if log_n == 0 {
        a
    } else {
        let e = transform::<G>(evens(a), fmul(omega, omega), (log_n - 1) as nat);
        let o = transform::<G>(odds(a), fmul(omega, omega), (log_n - 1) as nat);
        let half = a.len() / 2;
        Seq::new(
            a.len(),
            |i: int|
                if i < half {
                    G::sum(e[i], G::scaled(o[i], pow(omega, i as nat) % modulus()))
                } else {
                    G::difference(
                        e[i - half],
                        G::scaled(o[i - half], pow(omega, (i - half) as nat) % modulus()),
                    )
                },
        )
    }
}

/// The powers of a root of unity and of its inverse that a transform of
/// `n` elements uses: the first `n / 2` of each.
pub struct FFTData {
    pub n: usize,
    pub twiddles: Vec<Fe>,
    pub inv_twiddles: Vec<Fe>,
}

/// The table holds the first `count` powers of `omega`.
pub open spec fn holds_powers(table: Seq<Fe>, omega: int, count: int) -> bool {
    &&& table.len() == count
    &&& all_wf(table)
    &&& forall|i: int|
        0 <= i < count ==> (#[trigger] table[i]).value() == pow(omega, i as nat) % modulus()
}

impl FFTData {
    /// The tables are those of a transform of `n` elements with the roots
    /// `omega` and `omega_inv`.
    pub open spec fn wf(&self, n: int, omega: int, omega_inv: int) -> bool {
        &&& self.n == n
        &&& holds_powers(self.twiddles@, omega, n / 2)
        &&& holds_powers(self.inv_twiddles@, omega_inv, n / 2)
    }

    /// The tables for a transform of `n` elements.
    pub fn new(n: usize, omega: Fe, omega_inv: Fe) -> (r: FFTData)
        requires
            omega.wf(),
            omega_inv.wf(),
        ensures
            r.wf(n as int, omega.value(), omega_inv.value()),
    {
        FFTData { n, twiddles: powers(omega, n / 2), inv_twiddles: powers(omega_inv, n / 2) }
    }
}

/// The entry of the table that stands for the `i`-th power at a level of the
/// recursion that takes every `stride`-th entry.
pub open spec fn twiddle_at(table: Seq<Fe>, stride: int, i: int) -> int {
    table[stride * i].value()
}

/// The square of a root, raised to `i`, is the root raised to `2 * i`, in
/// the field.
pub proof fn lemma_pow_of_square(omega: int, i: nat)
    ensures
        pow(fmul(omega, omega), i) % modulus() == pow(omega, 2 * i) % modulus(),
{
    lemma_modulus_large();
    lemma_pow_mod_noop(omega * omega, i, modulus());
    assert(pow(omega, 2) == omega * omega) by {
        reveal_with_fuel(pow, 3);
    }
    lemma_pow_multiplies(omega, 2, i);
}

/// The transform by recursion on the even and the odd places. The level that
/// works with the root `omega` reads every `stride`-th entry of the table.
fn fft_rec<G: FftGroup>(
    a: &Vec<G>,
    table: &Vec<Fe>,
    stride: usize,
    log_n: u32,
    Ghost(omega): Ghost<int>,
) -> (r: Vec<G>)
    requires
        a@.len() == pow2(log_n as nat),
        all_elements_valid(a@),
        all_wf(table@),
        log_n > 0 ==> stride >= 1 && stride * a@.len() == 2 * table@.len(),
        forall|i: int|
            0 <= i < a@.len() / 2 ==> #[trigger] twiddle_at(table@, stride as int, i) == pow(
                omega,
                i as nat,
            ) % modulus(),
    ensures
        r@.len() == a@.len(),
        all_elements_valid(r@),
        models(r@) == transform::<G>(models(a@), omega, log_n as nat),
    decreases log_n,
{
    let n = a.len();
    let entries = table.len();
    if log_n == 0 {
        proof {
            lemma2_to64();
        }
        let mut r: Vec<G> = Vec::new();
        r.push(a[0]);
        assert(models(r@) =~= models(a@));
        return r;
    }
    let half: usize = n / 2;
    proof {
        lemma_pow2_unfold(log_n as nat);
        lemma_pow2_pos((log_n - 1) as nat);
        assert(n == 2 * half);
        assert(half == pow2((log_n - 1) as nat));
        assert(stride * half == table@.len()) by (nonlinear_arith)
            requires
                stride * (2 * half) == 2 * table@.len(),
        ;
    }
    let mut ev: Vec<G> = Vec::new();
    let mut od: Vec<G> = Vec::new();
    let mut i: usize = 0;
    while i < half
        invariant
            n == a@.len(),
            n == 2 * half,
            i <= half,
            all_elements_valid(a@),
            ev@.len() == i,
            od@.len() == i,
            all_elements_valid(ev@),
            all_elements_valid(od@),
            forall|s: int| 0 <= s < i ==> #[trigger] ev@[s] == a@[2 * s],
            forall|s: int| 0 <= s < i ==> #[trigger] od@[s] == a@[2 * s + 1],
        decreases half - i,
    {
        assert(a@[2 * i as int].valid() && a@[2 * i + 1].valid());
        ev.push(a[2 * i]);
        od.push(a[2 * i + 1]);
        i += 1;
    }
    let ghost square = fmul(omega, omega);
    let next: usize = if log_n >= 2 {
        proof {
            lemma_pow2_unfold((log_n - 1) as nat);
            lemma_pow2_pos((log_n - 2) as nat);
            assert(half >= 2);
            assert(2 * stride <= stride * half) by (nonlinear_arith)
                requires
                    half >= 2,
                    stride >= 1,
            ;
            assert(stride * 2 <= table@.len());
        }
        stride * 2
    } else {
        stride
    };
    proof {
        assert(models(ev@) =~= evens(models(a@)));
        assert(models(od@) =~= odds(models(a@)));
        if log_n >= 2 {
            assert(next * half == 2 * table@.len()) by (nonlinear_arith)
                requires
                    next == 2 * stride,
                    stride * half == table@.len(),
            ;
        }
        assert forall|s: int| 0 <= s < half / 2 implies #[trigger] twiddle_at(
            table@,
            next as int,
            s,
        ) == pow(square, s as nat) % modulus() by {
            assert(log_n >= 2) by {
                if log_n < 2 {
                    lemma2_to64();
                }
            }
            assert(next * s == stride * (2 * s)) by (nonlinear_arith)
                requires
                    next == 2 * stride,
            ;
            assert(twiddle_at(table@, stride as int, 2 * s) == pow(omega, (2 * s) as nat)
                % modulus());
            lemma_pow_of_square(omega, s as nat);
        }
    }
    let e = fft_rec::<G>(&ev, table, next, log_n - 1, Ghost(square));
    let o = fft_rec::<G>(&od, table, next, log_n - 1, Ghost(square));
    let ghost em = transform::<G>(evens(models(a@)), square, (log_n - 1) as nat);
    let ghost om = transform::<G>(odds(models(a@)), square, (log_n - 1) as nat);
    let mut low: Vec<G> = Vec::new();
    let mut high: Vec<G> = Vec::new();
    i = 0;
    while i < half
        invariant
            i <= half,
            stride >= 1,
            stride * half == table@.len(),
            entries == table@.len(),
            all_wf(table@),
            e@.len() == half,
            o@.len() == half,
            all_elements_valid(e@),
            all_elements_valid(o@),
            models(e@) == em,
            models(o@) == om,
            forall|s: int|
                0 <= s < half ==> #[trigger] twiddle_at(table@, stride as int, s) == pow(
                    omega,
                    s as nat,
                ) % modulus(),
            low@.len() == i,
            high@.len() == i,
            all_elements_valid(low@),
            all_elements_valid(high@),
            forall|s: int|
                0 <= s < i ==> (#[trigger] low@[s]).model() == G::sum(
                    em[s],
                    G::scaled(om[s], pow(omega, s as nat) % modulus()),
                ),
            forall|s: int|
                0 <= s < i ==> (#[trigger] high@[s]).model() == G::difference(
                    em[s],
                    G::scaled(om[s], pow(omega, s as nat) % modulus()),
                ),
        decreases half - i,
    {
        proof {
            assert(0 <= stride * i < stride * half) by (nonlinear_arith)
                requires
                    0 <= i < half,
                    stride >= 1,
            ;
            assert(stride * i < table@.len());
            assert(twiddle_at(table@, stride as int, i as int) == pow(omega, i as nat)
                % modulus());
            assert(e@[i as int].valid() && o@[i as int].valid());
            assert(models(e@)[i as int] == e@[i as int].model());
            assert(models(o@)[i as int] == o@[i as int].model());
        }
        let w = table[stride * i];
        assert(w.wf());
        let t = o[i].group_scale(&w);
        let lo = e[i].group_add(&t);
        let hi = e[i].group_sub(&t);
        low.push(lo);
        high.push(hi);
        i += 1;
    }
    i = 0;
    while i < half
        invariant
            i <= half,
            high@.len() == half,
            low@.len() == half + i,
            all_elements_valid(high@),
            all_elements_valid(low@),
            forall|s: int|
                0 <= s < half ==> (#[trigger] low@[s]).model() == G::sum(
                    em[s],
                    G::scaled(om[s], pow(omega, s as nat) % modulus()),
                ),
            forall|s: int| 0 <= s < i ==> #[trigger] low@[half + s] == high@[s],
        decreases half - i,
    {
        assert(high@[i as int].valid());
        low.push(high[i]);
        i += 1;
    }
    proof {
        let want = transform::<G>(models(a@), omega, log_n as nat);
        assert(models(a@).len() / 2 == half);
        assert forall|s: int| 0 <= s < n implies models(low@)[s] == want[s] by {
            if s >= half {
                assert(low@[half + (s - half)] == high@[s - half]);
            }
        }
        assert(models(low@) =~= want);
    }
    low
}

/// The transform of `a` in place with the root `omega`: for the inverse
/// transform, `omega` is the inverse root, and the result is not divided
/// by the length.
pub fn best_fft<G: FftGroup>(a: &mut Vec<G>, omega: Fe, log_n: u32, data: &FFTData, inverse: bool)
    requires
        old(a)@.len() == pow2(log_n as nat),
        all_elements_valid(old(a)@),
        data.n == old(a)@.len(),
        all_wf(data.twiddles@),
        all_wf(data.inv_twiddles@),
        !inverse ==> holds_powers(data.twiddles@, omega.value(), old(a)@.len() as int / 2),
        inverse ==> holds_powers(data.inv_twiddles@, omega.value(), old(a)@.len() as int / 2),
    ensures
        final(a)@.len() == old(a)@.len(),
        all_elements_valid(final(a)@),
        models(final(a)@) == transform::<G>(models(old(a)@), omega.value(), log_n as nat),
{
    let table = if inverse { &data.inv_twiddles } else { &data.twiddles };
    proof {
        if log_n > 0 {
            lemma_pow2_unfold(log_n as nat);
        }
        assert forall|i: int| 0 <= i < a@.len() / 2 implies #[trigger] twiddle_at(
            table@,
            1,
            i,
        ) == pow(omega.value(), i as nat) % modulus() by {
            assert(table@[i].value() == pow(omega.value(), i as nat) % modulus());
        }
    }
    let r = fft_rec::<G>(a, table, 1, log_n, Ghost(omega.value()));
    *a = r;
}


/// The root of the inverse transform of `2^k` elements: the inverse of the
/// field's root of unity, squared `32 - k` times.
pub open spec fn domain_root_inv(k: nat) -> int {
    pow(root_of_unity_inv(), pow2((32 - k) as nat)) % modulus()
}

/// The inverse of `2^k` in the field, as the `k`-th power of the inverse of 2.
pub open spec fn domain_size_inv(k: nat) -> int {
    pow(two_inv(), k) % modulus()
}

/// The root of the transform of `2^k` elements: the field's root of unity,
/// squared `32 - k` times.
pub open spec fn domain_root(k: nat) -> int {
    pow(root_of_unity(), pow2((32 - k) as nat)) % modulus()
}

/// `root` squared once for each step from `k` up to the field's 2-adicity.
fn squared_down(root: Fe, k: u32) -> (r: Fe)
    requires
        root.wf(),
        k <= 32,
    ensures
        r.wf(),
        r.value() == pow(root.value(), pow2((32 - k) as nat)) % modulus(),
{
    let mut omega = root;
    let s = fp_two_adicity();
    let mut j: u32 = k;
    proof {
        lemma_modulus_large();
        lemma2_to64();
        lemma_pow1(root.value());
        lemma_small_mod(root.value() as nat, modulus() as nat);
    }
    while j < s
        invariant
            k <= j <= 32,
            s == 32,
            omega.wf(),
            omega.value() == pow(root.value(), pow2((j - k) as nat)) % modulus(),
        decreases s - j,
    {
        let next = fp_mul(&omega, &omega);
        proof {
            let e = pow2((j - k) as nat);
            let v = pow(root.value(), e);
            lemma_field_ops_reduce(v, v);
            lemma_pow_adds(root.value(), e, e);
            lemma_pow2_unfold((j + 1 - k) as nat);
        }
        omega = next;
        j += 1;
    }
    omega
}

/// The root of unity for transforms of `2^k` elements.
pub fn root_of_unity_of_order(k: u32) -> (r: Fe)
    requires
        k <= 32,
    ensures
        r.wf(),
        r.value() == domain_root(k as nat),
{
    squared_down(fp_root_of_unity(), k)
}

/// The inverse of the root of unity for transforms of `2^k` elements.
pub fn inverse_root_of_unity(k: u32) -> (r: Fe)
    requires
        k <= 32,
    ensures
        r.wf(),
        r.value() == domain_root_inv(k as nat),
{
    squared_down(fp_root_of_unity_inv(), k)
}

/// `2^k`, if a word holds it.
pub fn power_of_two(k: u32) -> (r: Option<usize>)
    ensures
        r.is_some() == (pow2(k as nat) <= usize::MAX),
        r.is_some() ==> r.unwrap() == pow2(k as nat),
{
    let mut p: usize = 1;
    let mut j: u32 = 0;
    proof {
        lemma2_to64();
    }
    while j < k
        invariant
            j <= k,
            p == pow2(j as nat),
        decreases k - j,
    {
        proof {
            lemma_pow2_unfold((j + 1) as nat);
        }
        if p > usize::MAX / 2 {
            proof {
                if j + 1 < k {
                    lemma_pow2_strictly_increases((j + 1) as nat, k as nat);
                }
            }
            return None;
        }
        p = p * 2;
        j += 1;
    }
    Some(p)
}

/// The Lagrange basis of the `2^k` points of a coefficient basis: the
/// inverse transform of the points, each then scaled by the inverse of `2^k`.
/// The result is in natural order.
pub fn g_to_lagrange(g_projective: Vec<Point>, k: u32) -> (r: Vec<Point>)
    requires
        k <= 32,
        g_projective@.len() == pow2(k as nat),
        all_valid(g_projective@),
    ensures
        r@.len() == g_projective@.len(),
        all_valid(r@),
        forall|i: int|
            0 <= i < r@.len() ==> (#[trigger] r@[i]).bytes@ == point_scaled(
                transform::<Point>(models(g_projective@), domain_root_inv(k as nat), k as nat)[i],
                domain_size_inv(k as nat),
            ),
{
    let n_inv = fp_pow(&fp_two_inv(), k as u64);
    let omega = fp_root_of_unity();
    let omega_inv = inverse_root_of_unity(k);
    let mut g = g_projective;
    let n = g.len();
    let fft_data = FFTData::new(n, omega, omega_inv);
    assert(all_elements_valid(g@)) by {
        assert forall|i: int| 0 <= i < g@.len() implies (#[trigger] g@[i]).valid() by {
            assert(Point::valid(&g@[i]));
        }
    }
    best_fft(&mut g, omega_inv, k, &fft_data, true);
    let mut r: Vec<Point> = Vec::new();
    let mut i: usize = 0;
    while i < n
        invariant
            n == g@.len(),
            i <= n,
            all_elements_valid(g@),
            n_inv.wf(),
            r@.len() == i,
            all_valid(r@),
            forall|t: int|
                0 <= t < i ==> (#[trigger] r@[t]).bytes@ == point_scaled(
                    g@[t].bytes@,
                    n_inv.value(),
                ),
        decreases n - i,
    {
        assert(g@[i as int].valid());
        let scaled = curve_scale(&g[i], &n_inv);
        r.push(scaled);
        i += 1;
    }
    proof {
        assert forall|t: int| 0 <= t < r@.len() implies (#[trigger] r@[t]).bytes@ == point_scaled(
            transform::<Point>(models(g_projective@), domain_root_inv(k as nat), k as nat)[t],
            domain_size_inv(k as nat),
        ) by {
            assert(models(g@)[t] == g@[t].bytes@);
        }
    }
    r
}

/// The Lagrange basis of the points where `k` is at most 32, there are
/// `2^k` points and each is a point of the curve; `None` otherwise.
pub fn checked_g_to_lagrange(g_projective: Vec<Point>, k: u32) -> (r: Option<Vec<Point>>)
    ensures
        r.is_some() == (k <= 32 && g_projective@.len() == pow2(k as nat) && all_valid(
            g_projective@,
        )),
        r.is_some() ==> {
            &&& r.unwrap()@.len() == g_projective@.len()
            &&& all_valid(r.unwrap()@)
            &&& forall|i: int|
                0 <= i < g_projective@.len() ==> (#[trigger] r.unwrap()@[i]).bytes@
                    == point_scaled(
                    transform::<Point>(
                        models(g_projective@),
                        domain_root_inv(k as nat),
                        k as nat,
                    )[i],
                    domain_size_inv(k as nat),
                )
        },
{
    let len = g_projective.len();
    if k > 32 {
        return None;
    }
    match power_of_two(k) {
        None => None,
        Some(n) => {
            if len != n || !check_points(g_projective.as_slice()) {
                None
            } else {
                Some(g_to_lagrange(g_projective, k))
            }
        },
    }
}

} // verus!
