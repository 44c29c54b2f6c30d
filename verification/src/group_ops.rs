//! Points of the BN254 groups `G1` and `G2`, held as canonical affine
//! coordinates over the base field `Fq`, and the pairing into `GT`. The
//! group arithmetic and the pairing are done by `ark_ec`.

use vstd::prelude::*;
use vstd::arithmetic::div_mod::{lemma_mod_bound, lemma_small_mod};
use ark_bn254::{Bn254, Fq, Fq2, G1Affine, G2Affine};
use ark_ec::pairing::{Pairing, PairingOutput};
use ark_serialize::{CanonicalDeserialize, CanonicalSerialize};
use ark_ec::{AffineRepr, CurveGroup};
use ark_ff::{BigInt, PrimeField};
use crate::finite_field::{Fe, limbs_val, lemma_val_lt_modulus};
use crate::poly_math::pr;

verus! {

/// The order `q` of the BN254 base field.
pub open spec fn base_modulus() -> nat {
    21888242871839275222246405745257275088696311157297823662689037894645226208583nat
}

/// A point of `G1` in affine coordinates; the point at infinity has
/// `infinity` set and both coordinates zero. Points are only made by the
/// generator, the identity and the group operations, so they lie on the curve.
#[derive(Clone, Copy, Debug, PartialEq, Eq)]
pub struct G1Point {
    x: [u64; 4],
    y: [u64; 4],
    infinity: bool,
}

/// A point of `G2` in affine coordinates over `Fq2 = Fq[u]`, each coordinate
/// given by its two `Fq` components.
#[derive(Clone, Copy, Debug, PartialEq, Eq)]
pub struct G2Point {
    x: [[u64; 4]; 2],
    y: [[u64; 4]; 2],
    infinity: bool,
}

/// An element of the pairing's target group `GT`, held as its canonical
/// uncompressed `ark_serialize` encoding. Elements are only made by the
/// pairing and the group operation, so the bytes always encode an element.
#[derive(Clone, Debug, PartialEq, Eq)]
pub struct Gt {
    bytes: Vec<u8>,
}

impl View for Gt {
    type V = Seq<u8>;

    closed spec fn view(&self) -> Seq<u8> {
        self.bytes@
    }
}

/// The sum of two points of `G1`, as `ark_ec` computes it.
pub uninterp spec fn g1_add(p: G1Point, q: G1Point) -> G1Point;

/// The difference of two points of `G1`, as `ark_ec` computes it.
pub uninterp spec fn g1_sub(p: G1Point, q: G1Point) -> G1Point;

/// The multiple `[s] p` of a point of `G1`, as `ark_ec` computes it.
pub uninterp spec fn g1_mul(p: G1Point, s: nat) -> G1Point;

/// The sum of two points of `G2`, as `ark_ec` computes it.
pub uninterp spec fn g2_add(p: G2Point, q: G2Point) -> G2Point;

/// The multiple `[s] p` of a point of `G2`, as `ark_ec` computes it.
pub uninterp spec fn g2_mul(p: G2Point, s: nat) -> G2Point;

/// The optimal ate pairing `e(p, q)` on BN254, as `ark_ec` computes it.
pub uninterp spec fn pairing(p: G1Point, q: G2Point) -> Seq<u8>;

/// The group operation of the target group, as `ark_ec` computes it.
pub uninterp spec fn gt_add(a: Seq<u8>, b: Seq<u8>) -> Seq<u8>;

broadcast use lemma_val_lt_modulus;

/// `[s]_1`: the generator of `G1` multiplied by `s`.
pub open spec fn enc1(s: int) -> G1Point {
    g1_mul(G1Point::spec_generator(), s as nat)
}

/// `[s]_2`: the generator of `G2` multiplied by `s`.
pub open spec fn enc2(s: int) -> G2Point {
    g2_mul(G2Point::spec_generator(), s as nat)
}

/// `e([s]_1, [1]_2)`: the pairing of the generators raised to `s`.
pub open spec fn gt_enc(s: int) -> Seq<u8> {
    pairing(enc1(s), enc2(1))
}

/// `p` is the multiple `[a]_1` of the generator, `a` a field value (the
/// identity standing for zero).
pub open spec fn repr1(p: G1Point, a: int) -> bool {
    &&& 0 <= a < pr()
    &&& (p == enc1(a) || (a == 0 && p == G1Point::spec_identity()))
}

/// `p` is the multiple `[a]_2` of the generator, `a` a field value (the
/// identity standing for zero).
pub open spec fn repr2(p: G2Point, a: int) -> bool {
    &&& 0 <= a < pr()
    &&& (p == enc2(a) || (a == 0 && p == G2Point::spec_identity()))
}

impl G1Point {
    #[verifier::type_invariant]
    spec fn canonical(self) -> bool {
        limbs_val(self.x) < base_modulus() && limbs_val(self.y) < base_modulus()
    }

    /// The generator `(1, 2)` of `G1`.
    pub closed spec fn spec_generator() -> G1Point {
        G1Point { x: [1, 0, 0, 0], y: [2, 0, 0, 0], infinity: false }
    }

    /// The point at infinity of `G1`.
    pub closed spec fn spec_identity() -> G1Point {
        G1Point { x: [0, 0, 0, 0], y: [0, 0, 0, 0], infinity: true }
    }

    /// The generator of `G1`.
    pub fn generator() -> (g: G1Point)
        ensures
            g == G1Point::spec_generator(),
    {
        G1Point { x: [1, 0, 0, 0], y: [2, 0, 0, 0], infinity: false }
    }

    /// The identity of `G1`.
    pub fn identity() -> (o: G1Point)
        ensures
            o == G1Point::spec_identity(),
    {
        G1Point { x: [0, 0, 0, 0], y: [0, 0, 0, 0], infinity: true }
    }

    /// `self + other`; multiples of the generator add their factors.
    pub fn add(&self, other: &G1Point) -> (r: G1Point)
        ensures
            r == g1_add(*self, *other),
            forall|a: int, b: int| #![trigger repr1(*self, a), repr1(*other, b)]
                repr1(*self, a) && repr1(*other, b) ==> repr1(r, (a + b) % pr()),
    {
        let r = g1_add_ark(self, other);
        proof {
            assert forall|a: int, b: int| #![trigger repr1(*self, a), repr1(*other, b)]
                repr1(*self, a) && repr1(*other, b) implies repr1(r, (a + b) % pr()) by {
                lemma_small_mod(a as nat, pr() as nat);
                lemma_small_mod(b as nat, pr() as nat);
                lemma_mod_bound(a + b, pr());
            }
        }
        r
    }

    /// `self - other`; multiples of the generator subtract their factors.
    pub fn sub(&self, other: &G1Point) -> (r: G1Point)
        ensures
            r == g1_sub(*self, *other),
            forall|a: int, b: int| #![trigger repr1(*self, a), repr1(*other, b)]
                repr1(*self, a) && repr1(*other, b) ==> repr1(r, (a - b) % pr()),
    {
        let r = g1_sub_ark(self, other);
        proof {
            assert forall|a: int, b: int| #![trigger repr1(*self, a), repr1(*other, b)]
                repr1(*self, a) && repr1(*other, b) implies repr1(r, (a - b) % pr()) by {
                lemma_small_mod(a as nat, pr() as nat);
                lemma_mod_bound(a - b, pr());
                assert(0 - b == -b);
            }
        }
        r
    }

    /// `[s] self`; a multiple of the generator has its factor multiplied.
    pub fn mul(&self, s: &Fe) -> (r: G1Point)
        ensures
            r == g1_mul(*self, s@),
            s@ == 1 ==> r == *self,
            forall|a: int| #[trigger] repr1(*self, a) ==> repr1(r, (a * s@) % pr()),
    {
        let r = g1_mul_ark(self, s);
        proof {
            assert forall|a: int| #[trigger] repr1(*self, a) implies repr1(r, (a * s@) % pr()) by {
                lemma_mod_bound(a * s@, pr());
                if a == 0 {
                    assert(0 * s@ == 0);
                }
            }
        }
        r
    }
}

impl G2Point {
    #[verifier::type_invariant]
    spec fn canonical(self) -> bool {
        &&& limbs_val(self.x[0]) < base_modulus() && limbs_val(self.x[1]) < base_modulus()
        &&& limbs_val(self.y[0]) < base_modulus() && limbs_val(self.y[1]) < base_modulus()
    }

    /// The generator of `G2` that `ark_bn254` fixes.
    pub closed spec fn spec_generator() -> G2Point {
        G2Point {
            x: [
                [0x46debd5cd992f6ed, 0x674322d4f75edadd, 0x426a00665e5c4479, 0x1800deef121f1e76],
                [0x97e485b7aef312c2, 0xf1aa493335a9e712, 0x7260bfb731fb5d25, 0x198e9393920d483a],
            ],
            y: [
                [0x4ce6cc0166fa7daa, 0xe3d1e7690c43d37b, 0x4aab71808dcb408f, 0x12c85ea5db8c6deb],
                [0x55acdadcd122975b, 0xbc4b313370b38ef3, 0xec9e99ad690c3395, 0x090689d0585ff075],
            ],
            infinity: false,
        }
    }

    /// The point at infinity of `G2`.
    pub closed spec fn spec_identity() -> G2Point {
        G2Point { x: [[0, 0, 0, 0], [0, 0, 0, 0]], y: [[0, 0, 0, 0], [0, 0, 0, 0]], infinity: true }
    }

    /// The generator of `G2`.
    pub fn generator() -> (g: G2Point)
        ensures
            g == G2Point::spec_generator(),
    {
        G2Point {
            x: [
                [0x46debd5cd992f6ed, 0x674322d4f75edadd, 0x426a00665e5c4479, 0x1800deef121f1e76],
                [0x97e485b7aef312c2, 0xf1aa493335a9e712, 0x7260bfb731fb5d25, 0x198e9393920d483a],
            ],
            y: [
                [0x4ce6cc0166fa7daa, 0xe3d1e7690c43d37b, 0x4aab71808dcb408f, 0x12c85ea5db8c6deb],
                [0x55acdadcd122975b, 0xbc4b313370b38ef3, 0xec9e99ad690c3395, 0x090689d0585ff075],
            ],
            infinity: false,
        }
    }

    /// The identity of `G2`.
    pub fn identity() -> (o: G2Point)
        ensures
            o == G2Point::spec_identity(),
    {
        G2Point { x: [[0, 0, 0, 0], [0, 0, 0, 0]], y: [[0, 0, 0, 0], [0, 0, 0, 0]], infinity: true }
    }

    /// `self + other`; multiples of the generator add their factors.
    pub fn add(&self, other: &G2Point) -> (r: G2Point)
        ensures
            r == g2_add(*self, *other),
            forall|a: int, b: int| #![trigger repr2(*self, a), repr2(*other, b)]
                repr2(*self, a) && repr2(*other, b) ==> repr2(r, (a + b) % pr()),
    {
        let r = g2_add_ark(self, other);
        proof {
            assert forall|a: int, b: int| #![trigger repr2(*self, a), repr2(*other, b)]
                repr2(*self, a) && repr2(*other, b) implies repr2(r, (a + b) % pr()) by {
                lemma_small_mod(a as nat, pr() as nat);
                lemma_small_mod(b as nat, pr() as nat);
                lemma_mod_bound(a + b, pr());
            }
        }
        r
    }

    /// `[s] self`; a multiple of the generator has its factor multiplied.
    pub fn mul(&self, s: &Fe) -> (r: G2Point)
        ensures
            r == g2_mul(*self, s@),
            s@ == 1 ==> r == *self,
            forall|a: int| #[trigger] repr2(*self, a) ==> repr2(r, (a * s@) % pr()),
    {
        let r = g2_mul_ark(self, s);
        proof {
            assert forall|a: int| #[trigger] repr2(*self, a) implies repr2(r, (a * s@) % pr()) by {
                lemma_mod_bound(a * s@, pr());
                if a == 0 {
                    assert(0 * s@ == 0);
                }
            }
        }
        r
    }
}

/// `ark_ec` addition on `G1` (through projective coordinates, normalised
/// back to affine); the result is named by `g1_add`. `G1` is a group of
/// prime order `r` (`ark_ec::Group`) with the identity as neutral element,
/// so the multiples `[a]_1`, `[b]_1` of the generator add to `[a + b]_1`.
#[verifier::external_body]
fn g1_add_ark(p: &G1Point, q: &G1Point) -> (r: G1Point)
    ensures
        r == g1_add(*p, *q),
        *p == G1Point::spec_identity() ==> r == *q,
        *q == G1Point::spec_identity() ==> r == *p,
        forall|a: int, b: int| #![trigger enc1(a), enc1(b)]
            0 <= a < pr() && 0 <= b < pr() && *p == enc1(a) && *q == enc1(b) ==> r == enc1((a + b) % pr()),
{
    let a = G1Affine { x: Fq::from(BigInt(p.x)), y: Fq::from(BigInt(p.y)), infinity: p.infinity };
    let b = G1Affine { x: Fq::from(BigInt(q.x)), y: Fq::from(BigInt(q.y)), infinity: q.infinity };
    let s = (a + b).into_affine();
    G1Point { x: s.x.into_bigint().0, y: s.y.into_bigint().0, infinity: s.infinity }
}

/// `ark_ec` subtraction on `G1`; the result is named by `g1_sub`. In the
/// group of prime order `r`, subtracting the identity changes nothing and
/// `[a]_1 - [b]_1 = [a - b]_1`.
#[verifier::external_body]
fn g1_sub_ark(p: &G1Point, q: &G1Point) -> (r: G1Point)
    ensures
        r == g1_sub(*p, *q),
        *q == G1Point::spec_identity() ==> r == *p,
        forall|b: int| #![trigger enc1(b)]
            0 <= b < pr() && *p == G1Point::spec_identity() && *q == enc1(b) ==> r == enc1((-b) % pr()),
        forall|a: int, b: int| #![trigger enc1(a), enc1(b)]
            0 <= a < pr() && 0 <= b < pr() && *p == enc1(a) && *q == enc1(b) ==> r == enc1((a - b) % pr()),
{
    let a = G1Affine { x: Fq::from(BigInt(p.x)), y: Fq::from(BigInt(p.y)), infinity: p.infinity };
    let b = G1Affine { x: Fq::from(BigInt(q.x)), y: Fq::from(BigInt(q.y)), infinity: q.infinity };
    let s = (a.into_group() - b).into_affine();
    G1Point { x: s.x.into_bigint().0, y: s.y.into_bigint().0, infinity: s.infinity }
}

/// `ark_ec` scalar multiplication on `G1`; the result is named by `g1_mul`.
/// Multiples of the identity are the identity, multiplying by one gives the
/// point back (normalised affine coordinates are unique), and
/// `[s] [a]_1 = [a * s]_1`.
#[verifier::external_body]
fn g1_mul_ark(p: &G1Point, s: &Fe) -> (r: G1Point)
    ensures
        r == g1_mul(*p, s@),
        *p == G1Point::spec_identity() ==> r == G1Point::spec_identity(),
        s@ == 1 ==> r == *p,
        forall|a: int| #![trigger enc1(a)] 0 <= a < pr() && *p == enc1(a) ==> r == enc1((a * s@) % pr()),
{
    let a = G1Affine { x: Fq::from(BigInt(p.x)), y: Fq::from(BigInt(p.y)), infinity: p.infinity };
    let m = (a * ark_bn254::Fr::from(BigInt(s.limbs))).into_affine();
    G1Point { x: m.x.into_bigint().0, y: m.y.into_bigint().0, infinity: m.infinity }
}

/// `ark_ec` addition on `G2`; the result is named by `g2_add`. `G2` is a
/// group of prime order `r` with the identity as neutral element, so
/// `[a]_2 + [b]_2 = [a + b]_2`.
#[verifier::external_body]
fn g2_add_ark(p: &G2Point, q: &G2Point) -> (r: G2Point)
    ensures
        r == g2_add(*p, *q),
        *p == G2Point::spec_identity() ==> r == *q,
        *q == G2Point::spec_identity() ==> r == *p,
        forall|a: int, b: int| #![trigger enc2(a), enc2(b)]
            0 <= a < pr() && 0 <= b < pr() && *p == enc2(a) && *q == enc2(b) ==> r == enc2((a + b) % pr()),
{
    let f = |v: [[u64; 4]; 2]| Fq2::new(Fq::from(BigInt(v[0])), Fq::from(BigInt(v[1])));
    let a = G2Affine { x: f(p.x), y: f(p.y), infinity: p.infinity };
    let b = G2Affine { x: f(q.x), y: f(q.y), infinity: q.infinity };
    let s = (a + b).into_affine();
    let g = |e: Fq2| [e.c0.into_bigint().0, e.c1.into_bigint().0];
    G2Point { x: g(s.x), y: g(s.y), infinity: s.infinity }
}

/// `ark_ec` scalar multiplication on `G2`; the result is named by `g2_mul`.
/// Multiples of the identity are the identity, multiplying by one gives the
/// point back, and `[s] [a]_2 = [a * s]_2`.
#[verifier::external_body]
fn g2_mul_ark(p: &G2Point, s: &Fe) -> (r: G2Point)
    ensures
        r == g2_mul(*p, s@),
        *p == G2Point::spec_identity() ==> r == G2Point::spec_identity(),
        s@ == 1 ==> r == *p,
        forall|a: int| #![trigger enc2(a)] 0 <= a < pr() && *p == enc2(a) ==> r == enc2((a * s@) % pr()),
{
    let f = |v: [[u64; 4]; 2]| Fq2::new(Fq::from(BigInt(v[0])), Fq::from(BigInt(v[1])));
    let a = G2Affine { x: f(p.x), y: f(p.y), infinity: p.infinity };
    let m = (a * ark_bn254::Fr::from(BigInt(s.limbs))).into_affine();
    let g = |e: Fq2| [e.c0.into_bigint().0, e.c1.into_bigint().0];
    G2Point { x: g(m.x), y: g(m.y), infinity: m.infinity }
}

/// `Pairing::pairing` for `Bn254`, its output serialised; the encoding is
/// named by `pairing`. The pairing is bilinear and sends the identity of
/// either group to the identity of `GT`: `e([a]_1, [b]_2) = e([a * b]_1, [1]_2)`.
/// The serialisation of `PairingOutput` is canonical, so equal elements
/// have equal encodings.
#[verifier::external_body]
fn pairing_ark(p: &G1Point, q: &G2Point) -> (r: Gt)
    ensures
        r@ == pairing(*p, *q),
        *p == G1Point::spec_identity() ==> r@ == gt_enc(0),
        *q == G2Point::spec_identity() ==> r@ == gt_enc(0),
        forall|a: int, b: int| #![trigger enc1(a), enc2(b)]
            0 <= a < pr() && 0 <= b < pr() && *p == enc1(a) && *q == enc2(b) ==> r@ == gt_enc((a * b) % pr()),
{
    let f = |v: [[u64; 4]; 2]| Fq2::new(Fq::from(BigInt(v[0])), Fq::from(BigInt(v[1])));
    let a = G1Affine { x: Fq::from(BigInt(p.x)), y: Fq::from(BigInt(p.y)), infinity: p.infinity };
    let b = G2Affine { x: f(q.x), y: f(q.y), infinity: q.infinity };
    let mut bytes = Vec::new();
    Bn254::pairing(a, b).serialize_uncompressed(&mut bytes).unwrap();
    Gt { bytes }
}

/// The group operation of `PairingOutput<Bn254>` on two decoded elements,
/// the result serialised; the encoding is named by `gt_add`. `GT` is a
/// group of order `r`, so `e(g, h)^x * e(g, h)^y = e(g, h)^(x + y)`.
#[verifier::external_body]
fn gt_add_ark(a: &Gt, b: &Gt) -> (r: Gt)
    ensures
        r@ == gt_add(a@, b@),
        forall|x: int, y: int| #![trigger gt_enc(x), gt_enc(y)]
            0 <= x < pr() && 0 <= y < pr() && a@ == gt_enc(x) && b@ == gt_enc(y) ==> r@ == gt_enc((x + y) % pr()),
{
    let x = PairingOutput::<Bn254>::deserialize_uncompressed_unchecked(&a.bytes[..]).unwrap();
    let y = PairingOutput::<Bn254>::deserialize_uncompressed_unchecked(&b.bytes[..]).unwrap();
    let mut bytes = Vec::new();
    (x + y).serialize_uncompressed(&mut bytes).unwrap();
    Gt { bytes }
}

impl Gt {
    /// `e(p, q)`; for multiples of the generators, `e([a]_1, [b]_2) = e(g, h)^(a * b)`.
    pub fn pairing(p: &G1Point, q: &G2Point) -> (r: Gt)
        ensures
            r@ == pairing(*p, *q),
            forall|a: int, b: int| #![trigger repr1(*p, a), repr2(*q, b)]
                repr1(*p, a) && repr2(*q, b) ==> r@ == gt_enc((a * b) % pr()),
    {
        let r = pairing_ark(p, q);
        proof {
            assert forall|a: int, b: int| #![trigger repr1(*p, a), repr2(*q, b)]
                repr1(*p, a) && repr2(*q, b) implies r@ == gt_enc((a * b) % pr()) by {
                if a == 0 {
                    assert(0 * b == 0);
                }
                if b == 0 {
                    assert(a * 0 == 0);
                }
            }
        }
        r
    }

    /// The group operation of the target group (written additively, as
    /// `ark_ec` does); powers of `e(g, h)` add their exponents.
    pub fn add(&self, other: &Gt) -> (r: Gt)
        ensures
            r@ == gt_add(self@, other@),
            forall|x: int, y: int| #![trigger gt_enc(x), gt_enc(y)]
                0 <= x < pr() && 0 <= y < pr() && self@ == gt_enc(x) && other@ == gt_enc(y) ==> r@ == gt_enc((x + y) % pr()),
    {
        gt_add_ark(self, other)
    }

    /// Whether two elements are equal: the encoding is canonical, so this
    /// compares the bytes.
    pub fn equals(&self, other: &Gt) -> (b: bool)
        ensures
            b == (self@ == other@),
    {
        let n = self.bytes.len();
        if n != other.bytes.len() {
            return false;
        }
        let mut i: usize = 0;
        while i < n
            invariant
                i <= n,
                n == self.bytes.len(),
                n == other.bytes.len(),
                forall|k: int| 0 <= k < i ==> self.bytes@[k] == other.bytes@[k],
            decreases n - i,
        {
            if self.bytes[i] != other.bytes[i] {
                return false;
            }
            i += 1;
        }
        assert(self.bytes@ =~= other.bytes@);
        true
    }
}

/// The point `[4]_1` and the sum `[4]_1 + [1]_1`.
pub fn group_ops() -> (r: (G1Point, G1Point))
    ensures
        r.0 == g1_mul(G1Point::spec_generator(), 4),
        r.1 == g1_add(r.0, G1Point::spec_generator()),
{
    let g1 = G1Point::generator();
    let x = Fe::from_u64(4);
    let x_g1 = g1.mul(&x);
    let sum = x_g1.add(&g1);
    (x_g1, sum)
}

} // verus!
