//! Groth16 verification.

use vstd::prelude::*;
use vstd::arithmetic::div_mod::{lemma_add_mod_noop, lemma_mod_bound, lemma_mod_twice};
use crate::finite_field::Fe;
use crate::group_ops::{G1Point, Gt, gt_add, gt_enc, pairing, repr1, repr2};
use crate::poly_math::{cong, pr};
use crate::prover::{Proof, msc};
use crate::trusted_setup::{Crs, CrsScalars, crs_repr, msm1, msm_g1, reprs1};

verus! {

/// The verification equation
/// `e(A, B) = e(alpha, beta) + e(IC, gamma) + e(C, delta)`, with
/// `IC = sum_k [public_values[k]] public_ic_terms[k]`.
pub open spec fn verifies(crs: &Crs, proof: &Proof, public_values: Seq<Fe>) -> bool {
    let ic = msm1(public_values, crs.public_ic_terms@, public_values.len() as int);
    pairing(proof.a, proof.b) == gt_add(
        gt_add(pairing(crs.alpha_g1, crs.beta_g2), pairing(ic, crs.gamma_g2)),
        pairing(proof.c, crs.delta_g2),
    )
}

/// The verification equation over the field values behind the points:
/// `A * B = alpha * beta + IC * gamma + C * delta`, where
/// `IC = sum_k public_values[k] * ic[k]`.
pub open spec fn scalar_check(cs: CrsScalars, public_values: Seq<Fe>, pa: int, pb: int, pc: int) -> bool {
    cong(pa * pb, cs.alpha * cs.beta + msc(public_values, cs.ic) * cs.gamma + pc * cs.delta)
}

/// Checks the verification equation for `proof` and the public inputs.
/// When the points of the CRS and of the proof are multiples of the
/// generators whose factors satisfy the equation, the check passes.
pub fn verify(crs: &Crs, proof: &Proof, public_values: &[Fe]) -> (ok: bool)
    requires
        public_values.len() == crs.public_ic_terms.len(),
    ensures
        ok == verifies(crs, proof, public_values@),
        ok == (pairing(proof.a, proof.b) == gt_add(
            gt_add(
                pairing(crs.alpha_g1, crs.beta_g2),
                pairing(msm1(public_values@, crs.public_ic_terms@, public_values@.len() as int), crs.gamma_g2),
            ),
            pairing(proof.c, crs.delta_g2),
        )),
        forall|cs: CrsScalars, pa: int, pb: int, pc: int|
            #![trigger crs_repr(crs, cs), repr1(proof.a, pa), repr2(proof.b, pb), repr1(proof.c, pc)]
            crs_repr(crs, cs) && repr1(proof.a, pa) && repr2(proof.b, pb) && repr1(proof.c, pc)
                && scalar_check(cs, public_values@, pa, pb, pc) ==> ok,
{
    let ic: G1Point = msm_g1(public_values, crs.public_ic_terms.as_slice());
    let lhs = Gt::pairing(&proof.a, &proof.b);
    let e_ab = Gt::pairing(&crs.alpha_g1, &crs.beta_g2);
    let e_ic = Gt::pairing(&ic, &crs.gamma_g2);
    let e_c = Gt::pairing(&proof.c, &crs.delta_g2);
    let s12 = e_ab.add(&e_ic);
    let rhs = s12.add(&e_c);
    let ok = lhs.equals(&rhs);
    proof {
        assert forall|cs: CrsScalars, pa: int, pb: int, pc: int|
            #![trigger crs_repr(crs, cs), repr1(proof.a, pa), repr2(proof.b, pb), repr1(proof.c, pc)]
            crs_repr(crs, cs) && repr1(proof.a, pa) && repr2(proof.b, pb) && repr1(proof.c, pc)
                && scalar_check(cs, public_values@, pa, pb, pc) implies ok by {
            let p = pr();
            assert(reprs1(crs.public_ic_terms@, cs.ic));
            let icv = msc(public_values@, cs.ic);
            assert(repr1(ic, icv));
            assert(repr1(crs.alpha_g1, cs.alpha));
            assert(repr2(crs.beta_g2, cs.beta));
            assert(repr2(crs.gamma_g2, cs.gamma));
            assert(repr2(crs.delta_g2, cs.delta));
            let x1 = (cs.alpha * cs.beta) % p;
            let x2 = (icv * cs.gamma) % p;
            let x3 = (pc * cs.delta) % p;
            assert(lhs@ == gt_enc((pa * pb) % p));
            assert(e_ab@ == gt_enc(x1));
            assert(e_ic@ == gt_enc(x2));
            assert(e_c@ == gt_enc(x3));
            lemma_mod_bound(cs.alpha * cs.beta, p);
            lemma_mod_bound(icv * cs.gamma, p);
            lemma_mod_bound(pc * cs.delta, p);
            lemma_mod_bound(x1 + x2, p);
            assert(s12@ == gt_enc((x1 + x2) % p));
            assert(rhs@ == gt_enc(((x1 + x2) % p + x3) % p));
            lemma_add_mod_noop(cs.alpha * cs.beta, icv * cs.gamma, p);
            lemma_add_mod_noop(cs.alpha * cs.beta + icv * cs.gamma, pc * cs.delta, p);
            lemma_mod_twice(cs.alpha * cs.beta + icv * cs.gamma, p);
        }
    }
    ok
}

} // verus!
