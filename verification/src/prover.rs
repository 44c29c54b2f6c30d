//! Groth16 proving.

use vstd::prelude::*;
use ark_std::rand::RngCore;
use crate::finite_field::{Fe, lemma_val_lt_modulus};
use crate::group_ops::{G1Point, G2Point, g1_add, g1_mul, g1_sub, g2_add, g2_mul, repr1, repr2};
use crate::poly_math::pr;
use crate::polynomial::Poly;
use crate::trusted_setup::{Crs, CrsScalars, crs_repr, min_len, msm1, msm2, msm_g1, msm_g2, reprs1, reprs2, sum_prod};
use vstd::arithmetic::div_mod::{lemma_add_mod_noop, lemma_mod_twice};

verus! {

broadcast use lemma_val_lt_modulus;

/// A Groth16 proof `(A, B, C)`.
pub struct Proof {
    pub a: G1Point,
    pub b: G2Point,
    pub c: G1Point,
}

/// `sum_{k' < k} [w[vars[k']]] terms[k']`, summed from the identity in order.
pub open spec fn private_sum(vars: Seq<usize>, terms: Seq<G1Point>, w: Seq<Fe>, k: int) -> G1Point
    decreases k,
{
    if k <= 0 {
        G1Point::spec_identity()
    } else {
        g1_add(private_sum(vars, terms, w, k - 1), g1_mul(terms[k - 1], w[vars[k - 1] as int]@))
    }
}

/// The private variables that the proof reads are witness positions.
pub open spec fn private_vars_in_witness(crs: &Crs, w: Seq<Fe>) -> bool {
    forall|k: int| 0 <= k < min_len(crs.private_vars@.len(), crs.private_delta_terms@.len()) ==>
        #[trigger] crs.private_vars@[k] < w.len()
}

/// The proof made from the witness `w`, the QAP polynomials `a`, `b`, `h`
/// and the blinding values `r`, `s`:
/// `A = alpha + a(tau) + r delta`, `B = beta + b(tau) + s delta`,
/// `C = sum_private w_j K_j + h(tau) t(tau) / delta + s A + r (beta + b(tau) + s delta) - r s delta`.
pub open spec fn proof_for(crs: &Crs, w: Seq<Fe>, a: Seq<Fe>, b: Seq<Fe>, h: Seq<Fe>, r: nat, s: nat) -> Proof {
    let a_tau_g1 = msm1(a, crs.tau_powers_g1@, min_len(a.len(), crs.tau_powers_g1@.len()));
    let b_tau_g1 = msm1(b, crs.tau_powers_g1@, min_len(b.len(), crs.tau_powers_g1@.len()));
    let b_tau_g2 = msm2(b, crs.tau_powers_g2@, min_len(b.len(), crs.tau_powers_g2@.len()));
    let pi_a = g1_add(g1_add(crs.alpha_g1, a_tau_g1), g1_mul(crs.delta_g1, r));
    let pi_b = g2_add(g2_add(crs.beta_g2, b_tau_g2), g2_mul(crs.delta_g2, s));
    let b_g1 = g1_add(g1_add(crs.beta_g1, b_tau_g1), g1_mul(crs.delta_g1, s));
    let ps = private_sum(crs.private_vars@, crs.private_delta_terms@, w,
        min_len(crs.private_vars@.len(), crs.private_delta_terms@.len()));
    let h_term = msm1(h, crs.h_over_delta_powers@, min_len(h.len(), crs.h_over_delta_powers@.len()));
    let pi_c = g1_sub(
        g1_add(g1_add(g1_add(ps, h_term), g1_mul(pi_a, s)), g1_mul(b_g1, r)),
        g1_mul(crs.delta_g1, (((r * s) as int) % pr()) as nat),
    );
    Proof { a: pi_a, b: pi_b, c: pi_c }
}

/// `sum_i c[i] * sc[i]` over the common length, in the field.
pub open spec fn msc(c: Seq<Fe>, sc: Seq<int>) -> int {
    sum_prod(c, sc, min_len(c.len(), sc.len())) % pr()
}

/// `sum_{k' < k} w[vars[k']] * ks[k']` over the integers.
pub open spec fn private_sum_scalar(vars: Seq<usize>, ks: Seq<int>, w: Seq<Fe>, k: int) -> int
    decreases k,
{
    if k <= 0 { 0 } else { private_sum_scalar(vars, ks, w, k - 1) + w[vars[k - 1] as int]@ * ks[k - 1] }
}

/// The value behind `A`: `alpha + a(tau) + r delta`.
pub open spec fn proof_a_scalar(cs: CrsScalars, a: Seq<Fe>, r: int) -> int {
    ((cs.alpha + msc(a, cs.taus)) % pr() + (cs.delta * r) % pr()) % pr()
}

/// The value behind `B`: `beta + b(tau) + s delta`.
pub open spec fn proof_b_scalar(cs: CrsScalars, b: Seq<Fe>, s: int) -> int {
    ((cs.beta + msc(b, cs.taus)) % pr() + (cs.delta * s) % pr()) % pr()
}

/// The value behind `C`:
/// `sum_private w_j K_j + h(tau) t(tau) / delta + s A + r B - r s delta`.
pub open spec fn proof_c_scalar(
    cs: CrsScalars,
    vars: Seq<usize>,
    w: Seq<Fe>,
    a: Seq<Fe>,
    b: Seq<Fe>,
    h: Seq<Fe>,
    r: int,
    s: int,
) -> int {
    let pa = proof_a_scalar(cs, a, r);
    let pb = proof_b_scalar(cs, b, s);
    let ps = private_sum_scalar(vars, cs.private_k, w, min_len(vars.len(), cs.private_k.len())) % pr();
    let ht = msc(h, cs.hs);
    ((((ps + ht) % pr() + (pa * s) % pr()) % pr() + (pb * r) % pr()) % pr() - (cs.delta * ((r * s) % pr())) % pr()) % pr()
}

/// The points of `proof` are the multiples of the generators that a CRS
/// with values `cs` gives for the witness, the polynomials and the blinding.
pub open spec fn proof_repr(
    proof: &Proof,
    crs: &Crs,
    cs: CrsScalars,
    w: Seq<Fe>,
    a: Seq<Fe>,
    b: Seq<Fe>,
    h: Seq<Fe>,
    r: int,
    s: int,
) -> bool {
    &&& repr1(proof.a, proof_a_scalar(cs, a, r))
    &&& repr2(proof.b, proof_b_scalar(cs, b, s))
    &&& repr1(proof.c, proof_c_scalar(cs, crs.private_vars@, w, a, b, h, r, s))
}

/// One more term of a sum taken modulo the order.
proof fn lemma_sum_step_mod(acc: int, c: int, x: int)
    ensures
        ((acc % pr()) + ((x * c) % pr())) % pr() == (acc + c * x) % pr(),
{
    lemma_add_mod_noop(acc, x * c, pr());
    lemma_mod_twice(acc, pr());
    lemma_mod_twice(x * c, pr());
    assert(x * c == c * x) by (nonlinear_arith);
}

/// The proof for the given blinding values `r` and `s`.
pub fn prove_with_blinding(crs: &Crs, w: &[Fe], a_poly: &Poly, b_poly: &Poly, h_poly: &Poly, r: Fe, s: Fe) -> (proof: Proof)
    requires
        private_vars_in_witness(crs, w@),
    ensures
        proof == proof_for(crs, w@, a_poly.coeffs@, b_poly.coeffs@, h_poly.coeffs@, r@, s@),
        forall|cs: CrsScalars| #[trigger] crs_repr(crs, cs) ==>
            proof_repr(&proof, crs, cs, w@, a_poly.coeffs@, b_poly.coeffs@, h_poly.coeffs@, r@ as int, s@ as int),
{
    let a_tau_g1 = msm_g1(a_poly.coeffs.as_slice(), crs.tau_powers_g1.as_slice());
    let b_tau_g1 = msm_g1(b_poly.coeffs.as_slice(), crs.tau_powers_g1.as_slice());
    let b_tau_g2 = msm_g2(b_poly.coeffs.as_slice(), crs.tau_powers_g2.as_slice());

    let pi_a = crs.alpha_g1.add(&a_tau_g1).add(&crs.delta_g1.mul(&r));
    let pi_b_g2 = crs.beta_g2.add(&b_tau_g2).add(&crs.delta_g2.mul(&s));
    let b_g1 = crs.beta_g1.add(&b_tau_g1).add(&crs.delta_g1.mul(&s));

    let n: usize = if crs.private_vars.len() <= crs.private_delta_terms.len() {
        crs.private_vars.len()
    } else {
        crs.private_delta_terms.len()
    };
    let mut private_sum_acc = G1Point::identity();
    let mut k: usize = 0;
    while k < n
        invariant
            k <= n,
            n == min_len(crs.private_vars@.len(), crs.private_delta_terms@.len()),
            private_vars_in_witness(crs, w@),
            private_sum_acc == private_sum(crs.private_vars@, crs.private_delta_terms@, w@, k as int),
            forall|cs: CrsScalars| #[trigger] crs_repr(crs, cs) ==>
                repr1(private_sum_acc, private_sum_scalar(crs.private_vars@, cs.private_k, w@, k as int) % pr()),
        decreases n - k,
    {
        let j = crs.private_vars[k];
        let term = crs.private_delta_terms[k];
        let m = term.mul(&w[j]);
        let ghost old_acc = private_sum_acc;
        private_sum_acc = private_sum_acc.add(&m);
        proof {
            assert forall|cs: CrsScalars| #[trigger] crs_repr(crs, cs) implies
                repr1(private_sum_acc, private_sum_scalar(crs.private_vars@, cs.private_k, w@, k + 1) % pr()) by {
                let x = private_sum_scalar(crs.private_vars@, cs.private_k, w@, k as int) % pr();
                assert(repr1(old_acc, x));
                assert(reprs1(crs.private_delta_terms@, cs.private_k));
                assert(repr1(crs.private_delta_terms@[k as int], cs.private_k[k as int]));
                let y = (cs.private_k[k as int] * w@[j as int]@) % pr();
                assert(repr1(m, y));
                lemma_sum_step_mod(private_sum_scalar(crs.private_vars@, cs.private_k, w@, k as int), w@[j as int]@ as int, cs.private_k[k as int]);
            }
        }
        k += 1;
    }

    let h_term = msm_g1(h_poly.coeffs.as_slice(), crs.h_over_delta_powers.as_slice());
    let rs = r.mul(&s);
    let c1 = private_sum_acc.add(&h_term);
    let sa = pi_a.mul(&s);
    let c2 = c1.add(&sa);
    let rb = b_g1.mul(&r);
    let c3 = c2.add(&rb);
    let drs = crs.delta_g1.mul(&rs);
    let pi_c = c3.sub(&drs);
    let proof = Proof { a: pi_a, b: pi_b_g2, c: pi_c };
    proof {
        assert forall|cs: CrsScalars| #[trigger] crs_repr(crs, cs) implies
            proof_repr(&proof, crs, cs, w@, a_poly.coeffs@, b_poly.coeffs@, h_poly.coeffs@, r@ as int, s@ as int) by {
            let p = pr();
            assert(reprs1(crs.tau_powers_g1@, cs.taus));
            assert(reprs2(crs.tau_powers_g2@, cs.taus));
            assert(reprs1(crs.h_over_delta_powers@, cs.hs));
            let at = msc(a_poly.coeffs@, cs.taus);
            let bt = msc(b_poly.coeffs@, cs.taus);
            let ht = msc(h_poly.coeffs@, cs.hs);
            assert(repr1(a_tau_g1, at));
            assert(repr1(b_tau_g1, bt));
            assert(repr2(b_tau_g2, bt));
            assert(repr1(h_term, ht));
            assert(repr1(crs.alpha_g1, cs.alpha));
            assert(repr1(crs.delta_g1, cs.delta));
            assert(repr1(crs.beta_g1, cs.beta));
            assert(repr2(crs.beta_g2, cs.beta));
            assert(repr2(crs.delta_g2, cs.delta));
            let pa = proof_a_scalar(cs, a_poly.coeffs@, r@ as int);
            let pb = proof_b_scalar(cs, b_poly.coeffs@, s@ as int);
            assert(repr1(pi_a, pa));
            assert(repr2(pi_b_g2, pb));
            assert(repr1(b_g1, pb));
            let ps = private_sum_scalar(crs.private_vars@, cs.private_k, w@, n as int) % p;
            assert(repr1(private_sum_acc, ps));
            assert(repr1(c1, (ps + ht) % p));
            assert(repr1(sa, (pa * s@) % p));
            assert(repr1(c2, ((ps + ht) % p + (pa * s@) % p) % p));
            assert(repr1(rb, (pb * r@) % p));
            assert(repr1(c3, (((ps + ht) % p + (pa * s@) % p) % p + (pb * r@) % p) % p));
            assert(repr1(drs, (cs.delta * rs@) % p));
        }
    }
    proof
}

/// A proof with blinding values drawn from `rng`: it is the proof for some
/// pair of field elements `r`, `s`.
pub fn prove<R: RngCore>(crs: &Crs, w: &[Fe], a_poly: &Poly, b_poly: &Poly, h_poly: &Poly, rng: &mut R) -> (proof: Proof)
    requires
        private_vars_in_witness(crs, w@),
    ensures
        exists|r: nat, s: nat| r < pr() && s < pr()
            && proof == proof_for(crs, w@, a_poly.coeffs@, b_poly.coeffs@, h_poly.coeffs@, r, s)
            && forall|cs: CrsScalars| #[trigger] crs_repr(crs, cs) ==>
                proof_repr(&proof, crs, cs, w@, a_poly.coeffs@, b_poly.coeffs@, h_poly.coeffs@, r as int, s as int),
{
    let r = Fe::rand(rng);
    let s = Fe::rand(rng);
    let proof = prove_with_blinding(crs, w, a_poly, b_poly, h_poly, r, s);
    assert(r@ < pr() && s@ < pr());
    proof
}

} // verus!
