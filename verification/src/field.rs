//! Elements of the Pasta base field, held as canonical little-endian bytes.
//!
//! The arithmetic itself is done by `halo2curves`; each operation is a small
//! trusted function whose contract states the result modulo the prime.

use ff::BatchInvert;
use ff::Field;
use ff::PrimeField;
use halo2curves::pasta::Fp;
use vstd::arithmetic::div_mod::*;
use vstd::arithmetic::power::*;
use vstd::prelude::*;

verus! {

/// The prime order of the field.
pub open spec fn modulus() -> int {
    0x992d30ed00000001int + 0x224698fc094cf91bint * 0x1_0000_0000_0000_0000int
        + 0x4000000000000000int * 0x1_0000_0000_0000_0000int * 0x1_0000_0000_0000_0000int
        * 0x1_0000_0000_0000_0000int
}

/// The inverse of 2 in the field.
pub open spec fn two_inv() -> int {
    0xcc96987680000001int + 0x11234c7e04a67c8dint * 0x1_0000_0000_0000_0000int
        + 0x0000000000000000int * 0x1_0000_0000_0000_0000int * 0x1_0000_0000_0000_0000int
        + 0x2000000000000000int * 0x1_0000_0000_0000_0000int * 0x1_0000_0000_0000_0000int * 0x1_0000_0000_0000_0000int
}

/// A primitive root of unity of order `2^32` in the field: 5 raised to the
/// odd part of `modulus() - 1`.
pub open spec fn root_of_unity() -> int {
    0xbdad6fabd87ea32fint + 0xea322bf2b7bb7584int * 0x1_0000_0000_0000_0000int
        + 0x362120830561f81aint * 0x1_0000_0000_0000_0000int * 0x1_0000_0000_0000_0000int
        + 0x2bce74deac30ebdaint * 0x1_0000_0000_0000_0000int * 0x1_0000_0000_0000_0000int * 0x1_0000_0000_0000_0000int
}

/// The inverse of `root_of_unity()` in the field.
pub open spec fn root_of_unity_inv() -> int {
    0xf0b87c7db2ce91f6int + 0x84a0a1d8859f066fint * 0x1_0000_0000_0000_0000int
        + 0xb4ed8e647196dad1int * 0x1_0000_0000_0000_0000int * 0x1_0000_0000_0000_0000int
        + 0x2cd5282c53116b5cint * 0x1_0000_0000_0000_0000int * 0x1_0000_0000_0000_0000int * 0x1_0000_0000_0000_0000int
}

/// The integer that a little-endian byte string stands for.
pub open spec fn le_value(b: Seq<u8>) -> int
    decreases b.len(),
{
    if b.len() == 0 {
        0
    } else {
        b[0] as int + 256 * le_value(b.skip(1))
    }
}

/// Sum in the field.
pub open spec fn fadd(a: int, b: int) -> int {
    (a + b) % modulus()
}

/// Difference in the field.
pub open spec fn fsub(a: int, b: int) -> int {
    (a - b) % modulus()
}

/// Product in the field.
pub open spec fn fmul(a: int, b: int) -> int {
    (a * b) % modulus()
}

/// Additive inverse in the field.
pub open spec fn fneg(a: int) -> int {
    (-a) % modulus()
}

/// Multiplicative inverse in the field, as the power `modulus() - 2`; it is 0 for 0.
pub open spec fn field_inv(a: int) -> int {
    pow(a, (modulus() - 2) as nat) % modulus()
}

/// A field element: the 32 little-endian bytes of its canonical representative.
#[derive(Clone, Copy, Debug, PartialEq, Eq)]
pub struct Fe {
    pub bytes: [u8; 32],
}

impl Fe {
    /// The representative as an integer.
    pub open spec fn value(&self) -> int {
        le_value(self.bytes@)
    }

    /// The bytes are canonical: the representative is below the modulus.
    pub open spec fn wf(&self) -> bool {
        0 <= self.value() < modulus()
    }

    /// The element with the given bytes, if they are canonical.
    pub fn from_bytes(bytes: [u8; 32]) -> (r: Option<Fe>)
        ensures
            r.is_some() == (le_value(bytes@) < modulus()),
            r.is_some() ==> r.unwrap().bytes == bytes && r.unwrap().wf(),
    {
        if fp_is_canonical(&bytes) {
            proof {
                lemma_le_value_nonnegative(bytes@);
            }
            Some(Fe { bytes })
        } else {
            None
        }
    }

    /// The field element of a machine integer.
    pub fn from_u64(n: u64) -> (r: Fe)
        ensures
            r.wf(),
            r.value() == n as int,
    {
        fp_from_u64(n)
    }

    /// The additive identity.
    pub fn zero() -> (r: Fe)
        ensures
            r.wf(),
            r.value() == 0,
    {
        fp_from_u64(0)
    }

    /// The multiplicative identity.
    pub fn one() -> (r: Fe)
        ensures
            r.wf(),
            r.value() == 1,
    {
        fp_from_u64(1)
    }
}

/// Every element of the sequence is canonical.
pub open spec fn all_wf(s: Seq<Fe>) -> bool {
    forall|i: int| 0 <= i < s.len() ==> (#[trigger] s[i]).wf()
}

/// The representatives of a sequence of elements.
pub open spec fn vals(s: Seq<Fe>) -> Seq<int> {
    Seq::new(s.len(), |i: int| s[i].value())
}

/// A byte string stands for a number that is not negative.
pub proof fn lemma_le_value_nonnegative(b: Seq<u8>)
    ensures
        le_value(b) >= 0,
    decreases b.len(),
{
    if b.len() > 0 {
        lemma_le_value_nonnegative(b.skip(1));
    }
}

/// The modulus is larger than 2.
pub proof fn lemma_modulus_large()
    ensures
        modulus() > 2,
{
}

/// Byte strings of one length that stand for the same number are equal.
pub proof fn lemma_value_determines_bytes(a: Seq<u8>, b: Seq<u8>)
    requires
        a.len() == b.len(),
        le_value(a) == le_value(b),
    ensures
        a == b,
    decreases a.len(),
{
    if a.len() > 0 {
        lemma_le_value_nonnegative(a.skip(1));
        lemma_le_value_nonnegative(b.skip(1));
        lemma_value_determines_bytes(a.skip(1), b.skip(1));
        assert(a =~= seq![a[0]] + a.skip(1));
        assert(b =~= seq![b[0]] + b.skip(1));
    }
    assert(a =~= b);
}

/// Elements with the same representative have the same bytes: results that
/// agree in value agree bit for bit.
pub proof fn lemma_same_value_same_element(x: Fe, y: Fe)
    requires
        x.value() == y.value(),
    ensures
        x == y,
{
    lemma_value_determines_bytes(x.bytes@, y.bytes@);
    assert(x.bytes =~= y.bytes);
}

/// Two different canonical representatives differ in the field.
pub proof fn lemma_distinct_difference(a: int, b: int)
    requires
        0 <= a < modulus(),
        0 <= b < modulus(),
        a != b,
    ensures
        fsub(a, b) != 0,
{
    lemma_modulus_large();
    if a > b {
        lemma_small_mod((a - b) as nat, modulus() as nat);
    } else {
        lemma_mod_add_multiples_vanish(a - b, modulus());
        lemma_small_mod((a - b + modulus()) as nat, modulus() as nat);
    }
}

/// Reducing the operands first does not change a sum, a difference or a
/// product in the field.
pub proof fn lemma_field_ops_reduce(a: int, b: int)
    ensures
        fadd(a % modulus(), b % modulus()) == fadd(a, b),
        fsub(a % modulus(), b % modulus()) == fsub(a, b),
        fmul(a % modulus(), b % modulus()) == fmul(a, b),
        fmul(a % modulus(), b) == fmul(a, b),
        fmul(a, b % modulus()) == fmul(a, b),
        fadd(a % modulus(), b) == fadd(a, b),
        fadd(a, b % modulus()) == fadd(a, b),
        fsub(a, b % modulus()) == fsub(a, b),
        fsub(a % modulus(), b) == fsub(a, b),
{
    lemma_modulus_large();
    let m = modulus();
    lemma_add_mod_noop(a, b, m);
    lemma_sub_mod_noop(a, b, m);
    lemma_mul_mod_noop_general(a, b, m);
    lemma_add_mod_noop_right(a, b, m);
    lemma_add_mod_noop_right(b, a, m);
    lemma_sub_mod_noop_right(a, b, m);
    lemma_mod_twice(b, m);
    lemma_sub_mod_noop(a % m, b, m);
    lemma_mod_twice(a, m);
}

/// `Fp::from_bytes`: whether the bytes are the canonical little-endian form
/// of a field element, that is, stand for a number below the modulus.
#[verifier::external_body]
pub(crate) fn fp_is_canonical(bytes: &[u8; 32]) -> (r: bool)
    ensures
        r == (le_value(bytes@) < modulus()),
{
    Fp::from_bytes(bytes).is_some().into()
}

/// `Fp::TWO_INV`: the inverse of 2.
#[verifier::external_body]
pub(crate) fn fp_two_inv() -> (r: Fe)
    ensures
        r.wf(),
        r.value() == two_inv(),
{
    Fe { bytes: Fp::TWO_INV.to_bytes() }
}

/// `Fp::ROOT_OF_UNITY`: the field's root of unity of order `2^32`.
#[verifier::external_body]
pub(crate) fn fp_root_of_unity() -> (r: Fe)
    ensures
        r.wf(),
        r.value() == root_of_unity(),
{
    Fe { bytes: Fp::ROOT_OF_UNITY.to_bytes() }
}

/// `Fp::ROOT_OF_UNITY_INV`: the inverse of the root of unity.
#[verifier::external_body]
pub(crate) fn fp_root_of_unity_inv() -> (r: Fe)
    ensures
        r.wf(),
        r.value() == root_of_unity_inv(),
{
    Fe { bytes: Fp::ROOT_OF_UNITY_INV.to_bytes() }
}

/// `Fp::S`: the field's 2-adicity, 32.
#[verifier::external_body]
pub(crate) fn fp_two_adicity() -> (r: u32)
    ensures
        r == 32,
{
    Fp::S
}

/// `Fp::from(u64)`: the field element whose representative is the given
/// integer, which is below the modulus.
#[verifier::external_body]
pub(crate) fn fp_from_u64(n: u64) -> (r: Fe)
    ensures
        r.wf(),
        r.value() == n as int,
{
    Fe { bytes: Fp::from(n).to_bytes() }
}

/// `Fp`'s `+`: the sum of the two representatives, reduced by the modulus.
#[verifier::external_body]
pub(crate) fn fp_add(a: &Fe, b: &Fe) -> (r: Fe)
    requires
        a.wf(),
        b.wf(),
    ensures
        r.wf(),
        r.value() == fadd(a.value(), b.value()),
{
    Fe { bytes: (Fp::from_bytes(&a.bytes).unwrap() + Fp::from_bytes(&b.bytes).unwrap()).to_bytes() }
}

/// `Fp`'s `-`: the difference of the two representatives, reduced by the
/// modulus to a value that is not negative.
#[verifier::external_body]
pub(crate) fn fp_sub(a: &Fe, b: &Fe) -> (r: Fe)
    requires
        a.wf(),
        b.wf(),
    ensures
        r.wf(),
        r.value() == fsub(a.value(), b.value()),
{
    Fe { bytes: (Fp::from_bytes(&a.bytes).unwrap() - Fp::from_bytes(&b.bytes).unwrap()).to_bytes() }
}

/// `Fp`'s `*`: the product of the two representatives, reduced by the modulus.
#[verifier::external_body]
pub(crate) fn fp_mul(a: &Fe, b: &Fe) -> (r: Fe)
    requires
        a.wf(),
        b.wf(),
    ensures
        r.wf(),
        r.value() == fmul(a.value(), b.value()),
{
    Fe { bytes: (Fp::from_bytes(&a.bytes).unwrap() * Fp::from_bytes(&b.bytes).unwrap()).to_bytes() }
}

/// `Fp`'s unary `-`: the additive inverse of the representative.
#[verifier::external_body]
pub(crate) fn fp_neg(a: &Fe) -> (r: Fe)
    requires
        a.wf(),
    ensures
        r.wf(),
        r.value() == fneg(a.value()),
{
    Fe { bytes: (-Fp::from_bytes(&a.bytes).unwrap()).to_bytes() }
}

/// `Field::pow_vartime` with a one-limb exponent: the representative raised
/// to the exponent, reduced by the modulus.
#[verifier::external_body]
pub(crate) fn fp_pow(a: &Fe, e: u64) -> (r: Fe)
    requires
        a.wf(),
    ensures
        r.wf(),
        r.value() == pow(a.value(), e as nat) % modulus(),
{
    Fe { bytes: Fp::from_bytes(&a.bytes).unwrap().pow_vartime([e, 0, 0, 0]).to_bytes() }
}

/// `BatchInvert::batch_invert` over all elements of all rows at once: each
/// element that is not zero is replaced by its multiplicative inverse, so
/// that the product of the two is 1, and a zero stays zero; the rows keep
/// their lengths.
#[verifier::external_body]
pub(crate) fn fp_batch_invert(rows: &mut Vec<Vec<Fe>>)
    requires
        forall|j: int| 0 <= j < old(rows)@.len() ==> all_wf(#[trigger] old(rows)@[j]@),
    ensures
        final(rows)@.len() == old(rows)@.len(),
        forall|j: int|
            0 <= j < old(rows)@.len() ==> (#[trigger] final(rows)@[j])@.len() == old(rows)@[j]@.len(),
        forall|j: int, t: int|
            0 <= j < old(rows)@.len() && 0 <= t < old(rows)@[j]@.len() ==> {
                &&& (#[trigger] final(rows)@[j]@[t]).wf()
                &&& final(rows)@[j]@[t].value() == field_inv(old(rows)@[j]@[t].value())
                &&& old(rows)@[j]@[t].value() != 0 ==> fmul(
                    old(rows)@[j]@[t].value(),
                    final(rows)@[j]@[t].value(),
                ) == 1
            },
{
    let mut fs: Vec<Vec<Fp>> = rows.iter().map(
        |r| r.iter().map(|e| Fp::from_bytes(&e.bytes).unwrap()).collect(),
    ).collect();
    fs.iter_mut().flat_map(|v| v.iter_mut()).batch_invert();
    *rows = fs.iter().map(|r| r.iter().map(|f| Fe { bytes: f.to_bytes() }).collect()).collect();
}

} // verus!
