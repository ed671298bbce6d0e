//! Small integer utilities: the floor of the binary logarithm and the
//! reversal of the low bits of a word.

use vstd::arithmetic::div_mod::*;
use vstd::arithmetic::power2::*;
use vstd::prelude::*;

verus! {

/// The low `l` bits of `n` in reverse order, as a number: twice the reversal
/// of the low `l - 1` bits, plus bit `l - 1` of `n` in the lowest place.
pub open spec fn reverse_bits(n: nat, l: nat) -> nat
    decreases l,
{
    if l == 0 {
        0
    } else {
        2 * reverse_bits(n, (l - 1) as nat) + (n / pow2((l - 1) as nat)) % 2
    }
}

/// The reversal of `l` bits is below `2^l`.
pub proof fn lemma_reverse_bits_bound(n: nat, l: nat)
    ensures
        reverse_bits(n, l) < pow2(l),
    decreases l,
{
    if l == 0 {
        lemma2_to64();
    } else {
        lemma_reverse_bits_bound(n, (l - 1) as nat);
        lemma_pow2_unfold(l);
    }
}

/// The largest `r` with `2^r <= num`.
pub fn log2_floor(num: usize) -> (r: u32)
    requires
        num > 0,
    ensures
        pow2(r as nat) <= num < pow2((r + 1) as nat),
{
    let mut r: u32 = 0;
    let mut p: usize = 1;
    proof {
        lemma2_to64();
    }
    while p <= num / 2
        invariant
            p == pow2(r as nat),
            0 < p <= num,
            r < usize::BITS,
        decreases num - p,
    {
        proof {
            lemma_pow2_unfold((r + 1) as nat);
            if r + 1 >= usize::BITS {
                lemma_pow2_strictly_increases(usize::BITS as nat, (r + 2) as nat);
                lemma_pow2_unfold((r + 2) as nat);
                lemma_word_limit();
            }
        }
        p = p * 2;
        r = r + 1;
    }
    proof {
        lemma_pow2_unfold((r + 1) as nat);
    }
    r
}

/// A word holds the numbers below `2^usize::BITS`.
pub proof fn lemma_word_limit()
    ensures
        pow2(usize::BITS as nat) == usize::MAX + 1,
{
    lemma2_to64();
}

/// The low `l` bits of `n` in reverse order. Where `l` exceeds the width of
/// a word, the bits that leave the word at the top are dropped.
pub fn bitreverse(n: usize, l: usize) -> (r: usize)
    ensures
        r == reverse_bits(n as nat, l as nat) % ((usize::MAX + 1) as nat),
        l <= usize::BITS ==> r == reverse_bits(n as nat, l as nat),
{
    let mut m: usize = n;
    let mut r: usize = 0;
    let mut k: usize = 0;
    proof {
        lemma2_to64();
        lemma_small_mod(0, (usize::MAX + 1) as nat);
    }
    while k < l
        invariant
            k <= l,
            m == n as nat / pow2(k as nat),
            r == reverse_bits(n as nat, k as nat) % ((usize::MAX + 1) as nat),
        decreases l - k,
    {
        let kept: usize = if r > usize::MAX / 2 { r - (usize::MAX / 2 + 1) } else { r };
        let next: usize = 2 * kept + m % 2;
        proof {
            let w = (usize::MAX + 1) as int;
            let big = reverse_bits(n as nat, k as nat) as int;
            let b = (m % 2) as int;
            lemma_word_limit();
            lemma_pow2_unfold((k + 1) as nat);
            lemma_pow2_pos(k as nat);
            lemma_div_denominator(n as int, pow2(k as nat) as int, 2);
            lemma_fundamental_div_mod(big, w);
            lemma_mod_multiples_vanish(2 * (big / w), 2 * r + b, w);
            assert(2 * big + b == w * (2 * (big / w)) + (2 * r + b)) by (nonlinear_arith)
                requires
                    big == w * (big / w) + r,
            ;
            if r > usize::MAX / 2 {
                lemma_mod_multiples_vanish(1, next as int, w);
            }
            lemma_small_mod(next as nat, w as nat);
        }
        r = next;
        m = m / 2;
        k += 1;
    }
    proof {
        if l <= usize::BITS {
            lemma_reverse_bits_bound(n as nat, l as nat);
            lemma_word_limit();
            if l < usize::BITS {
                lemma_pow2_strictly_increases(l as nat, usize::BITS as nat);
            }
            lemma_small_mod(reverse_bits(n as nat, l as nat), (usize::MAX + 1) as nat);
        }
    }
    r
}

} // verus!
