//! Elements of the BN254 scalar field `Fr`, held as four canonical
//! little-endian 64-bit limbs; the arithmetic itself is done by `ark_ff`.

use vstd::prelude::*;
use ark_bn254::Fr;
use ark_ff::{BigInt, Field, PrimeField, UniformRand};
use ark_std::rand::RngCore;

verus! {

/// The order `r` of the BN254 scalar field.
pub open spec fn modulus() -> nat {
    21888242871839275222246405745257275088548364400416034343698204186575808495617nat
}

/// The integer that four little-endian 64-bit limbs stand for.
pub open spec fn limbs_val(l: [u64; 4]) -> nat {
    l[0] as nat + l[1] as nat * 0x1_0000_0000_0000_0000nat
        + l[2] as nat * 0x1_0000_0000_0000_0000_0000_0000_0000_0000nat
        + l[3] as nat * 0x1_0000_0000_0000_0000_0000_0000_0000_0000_0000_0000_0000_0000nat
}

/// An element of `Fr`, stored as the canonical integer representative below `r`.
#[derive(Clone, Copy, Debug, PartialEq, Eq)]
pub struct Fe {
    pub(crate) limbs: [u64; 4],
}

impl Fe {
    #[verifier::type_invariant]
    spec fn canonical(self) -> bool {
        limbs_val(self.limbs) < modulus()
    }

    /// The value of the element, an integer in `0..r`.
    pub closed spec fn val(self) -> nat {
        limbs_val(self.limbs) % modulus()
    }
}

impl View for Fe {
    type V = nat;

    open spec fn view(&self) -> nat {
        self.val()
    }
}

/// Every element's value lies below `r`.
pub broadcast proof fn lemma_val_lt_modulus(x: Fe)
    ensures
        #[trigger] x.val() < modulus(),
{
}


/// The values of a sequence of field elements.
pub open spec fn fe_vals(s: Seq<Fe>) -> Seq<int> {
    Seq::new(s.len(), |i: int| s[i].val() as int)
}

/// The value of an `i64` read as an element of `Fr`.
pub open spec fn i64_val(c: i64) -> nat {
    (c as int % modulus() as int) as nat
}

/// `ark_ff` addition on `Fr`: the sum of the values, reduced modulo `r`.
#[verifier::external_body]
fn fr_add(a: &Fe, b: &Fe) -> (r: Fe)
    ensures
        r.val() == (a.val() + b.val()) % modulus(),
{
    let x = Fr::from_bigint(BigInt::new(a.limbs)).unwrap();
    let y = Fr::from_bigint(BigInt::new(b.limbs)).unwrap();
    Fe { limbs: (x + y).into_bigint().0 }
}

/// `ark_ff` subtraction on `Fr`: the difference of the values, reduced modulo `r`.
#[verifier::external_body]
fn fr_sub(a: &Fe, b: &Fe) -> (r: Fe)
    ensures
        r.val() == (a.val() - b.val()) % (modulus() as int),
{
    let x = Fr::from_bigint(BigInt::new(a.limbs)).unwrap();
    let y = Fr::from_bigint(BigInt::new(b.limbs)).unwrap();
    Fe { limbs: (x - y).into_bigint().0 }
}

/// `ark_ff` multiplication on `Fr`: the product of the values, reduced modulo `r`.
#[verifier::external_body]
fn fr_mul(a: &Fe, b: &Fe) -> (r: Fe)
    ensures
        r.val() == (a.val() * b.val()) % modulus(),
{
    let x = Fr::from_bigint(BigInt::new(a.limbs)).unwrap();
    let y = Fr::from_bigint(BigInt::new(b.limbs)).unwrap();
    Fe { limbs: (x * y).into_bigint().0 }
}

/// `ark_ff` negation on `Fr`: minus the value, reduced modulo `r`.
#[verifier::external_body]
fn fr_neg(a: &Fe) -> (r: Fe)
    ensures
        r.val() == (-(a.val() as int)) % (modulus() as int),
{
    let x = Fr::from_bigint(BigInt::new(a.limbs)).unwrap();
    Fe { limbs: (-x).into_bigint().0 }
}

/// `Field::inverse` on `Fr`: `None` for zero, otherwise the element whose
/// product with the argument is one modulo `r`.
#[verifier::external_body]
fn fr_inverse(a: &Fe) -> (r: Option<Fe>)
    ensures
        r is None <==> a.val() == 0,
        r matches Some(w) ==> (a.val() * w.val()) % modulus() == 1,
{
    let x = Fr::from_bigint(BigInt::new(a.limbs)).unwrap();
    match x.inverse() {
        Some(w) => Some(Fe { limbs: w.into_bigint().0 }),
        None => None,
    }
}

/// `UniformRand::rand` on `Fr`: an element drawn from `rng`. Which element
/// comes out depends on the generator's state, so nothing is said of it
/// beyond its being an element of `Fr`.
#[verifier::external_body]
fn fr_rand<R: RngCore>(rng: &mut R) -> (r: Fe) {
    Fe { limbs: Fr::rand(rng).into_bigint().0 }
}

impl Fe {
    /// The element with value `x`.
    pub fn from_u64(x: u64) -> (r: Fe)
        ensures
            r.val() == x,
    {
        Fe { limbs: [x, 0, 0, 0] }
    }

    /// The element zero.
    pub fn zero() -> (r: Fe)
        ensures
            r.val() == 0,
    {
        Fe::from_u64(0)
    }

    /// The element one.
    pub fn one() -> (r: Fe)
        ensures
            r.val() == 1,
    {
        Fe::from_u64(1)
    }

    /// The element that a signed integer stands for: `c` itself when it is
    /// nonnegative, otherwise minus `|c|`.
    pub fn from_i64(c: i64) -> (r: Fe)
        ensures
            r.val() == i64_val(c),
    {
        if c >= 0 {
            Fe::from_u64(c as u64)
        } else {
            let m = Fe::from_u64((-(c + 1)) as u64 + 1);
            fr_neg(&m)
        }
    }

    /// Whether the element is zero.
    pub fn is_zero(&self) -> (b: bool)
        ensures
            b == (self.val() == 0),
    {
        proof { use_type_invariant(self); }
        self.limbs[0] == 0 && self.limbs[1] == 0 && self.limbs[2] == 0 && self.limbs[3] == 0
    }

    /// Whether two elements are equal.
    pub fn equals(&self, other: &Fe) -> (b: bool)
        ensures
            b == (self.val() == other.val()),
    {
        proof {
            use_type_invariant(self);
            use_type_invariant(other);
            lemma_limbs_val_injective(self.limbs, other.limbs);
        }
        self.limbs[0] == other.limbs[0] && self.limbs[1] == other.limbs[1]
            && self.limbs[2] == other.limbs[2] && self.limbs[3] == other.limbs[3]
    }

    /// The sum `self + other` in `Fr`.
    pub fn add(&self, other: &Fe) -> (r: Fe)
        ensures
            r.val() == (self.val() + other.val()) % modulus(),
    {
        fr_add(self, other)
    }

    /// The difference `self - other` in `Fr`.
    pub fn sub(&self, other: &Fe) -> (r: Fe)
        ensures
            r.val() == (self.val() - other.val()) % (modulus() as int),
    {
        fr_sub(self, other)
    }

    /// The product `self * other` in `Fr`.
    pub fn mul(&self, other: &Fe) -> (r: Fe)
        ensures
            r.val() == (self.val() * other.val()) % modulus(),
    {
        fr_mul(self, other)
    }

    /// The negation `-self` in `Fr`.
    pub fn neg(&self) -> (r: Fe)
        ensures
            r.val() == (-(self.val() as int)) % (modulus() as int),
    {
        fr_neg(self)
    }

    /// The multiplicative inverse, `None` for zero.
    pub fn inverse(&self) -> (r: Option<Fe>)
        ensures
            r is None <==> self.val() == 0,
            r matches Some(w) ==> (self.val() * w.val()) % modulus() == 1,
    {
        fr_inverse(self)
    }

    /// An element drawn from `rng`.
    pub fn rand<R: RngCore>(rng: &mut R) -> (r: Fe) {
        fr_rand(rng)
    }
}

/// Distinct limb arrays stand for distinct integers.
proof fn lemma_limbs_val_injective(a: [u64; 4], b: [u64; 4])
    ensures
        limbs_val(a) == limbs_val(b) <==> (a[0] == b[0] && a[1] == b[1] && a[2] == b[2] && a[3] == b[3]),
{
    let w: int = 0x1_0000_0000_0000_0000;
    assert(limbs_val(a) == a[0] + w * (a[1] + w * (a[2] + w * a[3]))) by (nonlinear_arith)
        requires w == 0x1_0000_0000_0000_0000int;
    assert(limbs_val(b) == b[0] + w * (b[1] + w * (b[2] + w * b[3]))) by (nonlinear_arith)
        requires w == 0x1_0000_0000_0000_0000int;
    if limbs_val(a) == limbs_val(b) {
        lemma_digit_split(a[0] as int, b[0] as int, a[1] + w * (a[2] + w * a[3]), b[1] + w * (b[2] + w * b[3]), w);
        lemma_digit_split(a[1] as int, b[1] as int, a[2] + w * a[3], b[2] + w * b[3], w);
        lemma_digit_split(a[2] as int, b[2] as int, a[3] as int, b[3] as int, w);
    }
}

/// `d1 + w * h1 == d2 + w * h2` with digits below `w` forces equal digits and equal rests.
proof fn lemma_digit_split(d1: int, d2: int, h1: int, h2: int, w: int)
    requires
        0 <= d1 < w,
        0 <= d2 < w,
        d1 + w * h1 == d2 + w * h2,
    ensures
        d1 == d2,
        h1 == h2,
{
    assert(d1 == d2 && h1 == h2) by (nonlinear_arith)
        requires
            0 <= d1 < w,
            0 <= d2 < w,
            d1 + w * h1 == d2 + w * h2,
    ;
}

/// The character of a decimal digit.
pub open spec fn digit_char(d: nat) -> char {
    if d == 0 { '0' } else if d == 1 { '1' } else if d == 2 { '2' } else if d == 3 { '3' }
    else if d == 4 { '4' } else if d == 5 { '5' } else if d == 6 { '6' } else if d == 7 { '7' }
    else if d == 8 { '8' } else { '9' }
}

/// The decimal digits of `n` without leading zeros (none at all for zero).
pub open spec fn dec_digits(n: nat) -> Seq<char>
    decreases n,
{
    if n == 0 { seq![] } else { dec_digits(n / 10).push(digit_char(n % 10)) }
}

/// `Display` on `Fr`: the decimal digits of the canonical value with leading
/// zeros trimmed, so that zero prints as nothing.
#[verifier::external_body]
fn fr_display(a: &Fe) -> (s: String)
    ensures
        s@ == dec_digits(a.val()),
{
    format!("{}", Fr::from(BigInt(a.limbs)))
}

impl Fe {
    /// The element as `ark_ff` displays it: its decimal digits, leading
    /// zeros trimmed.
    pub fn to_decimal(&self) -> (s: String)
        ensures
            s@ == dec_digits(self.val()),
    {
        fr_display(self)
    }
}

/// The sum `4 + 9` and the square `4 * 4` in `Fr`.
pub fn field_ops() -> (r: (Fe, Fe))
    ensures
        r.0.val() == 13,
        r.1.val() == 16,
{
    let a = Fe::from_u64(4);
    let b = Fe::from_u64(9);
    let sum = a.add(&b);
    let product = a.mul(&a);
    proof {
        vstd::arithmetic::div_mod::lemma_small_mod(13nat, modulus());
        vstd::arithmetic::div_mod::lemma_small_mod(16nat, modulus());
    }
    (sum, product)
}

} // verus!
