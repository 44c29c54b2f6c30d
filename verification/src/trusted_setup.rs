//! The toxic waste of a Groth16 setup and the common reference string (CRS)
//! built from it.

use vstd::prelude::*;
use vstd::arithmetic::div_mod::*;
use ark_std::rand::RngCore;
use crate::finite_field::{Fe, lemma_val_lt_modulus};
use crate::group_ops::{G1Point, G2Point, enc1, enc2, g1_add, g1_mul, g2_add, g2_mul, repr1, repr2};
use crate::poly_math::{
    cong, distinct_points, eval_mod, field_inv, is_inverse, pr, xpow, lemma_cong_add, lemma_cong_mod,
    lemma_cong_mul, lemma_field_inv_unique,
};
use crate::qap::{Qap, col_vals, shaped};
use crate::poly_math::lagrange_eval;
use crate::r1cs::R1cs;
use crate::polynomial::Poly;

verus! {

broadcast use lemma_val_lt_modulus;

/// The secret values of a trusted setup.
pub struct ToxicWaste {
    pub alpha: Fe,
    pub beta: Fe,
    pub gamma: Fe,
    pub delta: Fe,
    pub tau: Fe,
}

impl ToxicWaste {
    /// Draws the five secrets from `rng`.
    pub fn sample<R: RngCore>(rng: &mut R) -> (tw: ToxicWaste) {
        let alpha = Fe::rand(rng);
        let beta = Fe::rand(rng);
        let gamma = Fe::rand(rng);
        let delta = Fe::rand(rng);
        let tau = Fe::rand(rng);
        ToxicWaste { alpha, beta, gamma, delta, tau }
    }
}

/// The common reference string.
pub struct Crs {
    pub alpha_g1: G1Point,
    pub beta_g1: G1Point,
    pub beta_g2: G2Point,
    pub gamma_g2: G2Point,
    pub delta_g1: G1Point,
    pub delta_g2: G2Point,
    pub tau_powers_g1: Vec<G1Point>,
    pub tau_powers_g2: Vec<G2Point>,
    pub public_ic_terms: Vec<G1Point>,
    pub private_delta_terms: Vec<G1Point>,
    pub h_over_delta_powers: Vec<G1Point>,
    pub public_vars: Vec<usize>,
    pub private_vars: Vec<usize>,
}

/// `t^i` in the field.
pub open spec fn fpow(t: int, i: nat) -> int {
    xpow(t, i) % pr()
}

/// The value at `x` of the interpolated column `j` of matrix `m` over the QAP's domain.
pub open spec fn col_eval(q: &Qap, m: Seq<Vec<i64>>, j: int, x: int) -> int {
    lagrange_eval(q.dom(), col_vals(m, j, q.domain.len() as int), x)
}

/// `beta * u_j(tau) + alpha * v_j(tau) + w_j(tau)` in the field.
pub open spec fn combined_term(r1cs: &R1cs, q: &Qap, tw: &ToxicWaste, j: int) -> int {
    (tw.beta@ * col_eval(q, r1cs.a@, j, tw.tau@ as int) + tw.alpha@ * col_eval(q, r1cs.b@, j, tw.tau@ as int)
        + col_eval(q, r1cs.c@, j, tw.tau@ as int)) % pr()
}

/// The variables below `n` that are not public, in increasing order.
pub open spec fn private_of(public: Seq<usize>, n: int) -> Seq<usize>
    decreases n,
{
    if n <= 0 {
        seq![]
    } else if public.contains((n - 1) as usize) {
        private_of(public, n - 1)
    } else {
        private_of(public, n - 1).push((n - 1) as usize)
    }
}

/// `crs` is the CRS that `Crs::setup` builds for `r1cs`, `q`, `tw` and `public`.
pub open spec fn crs_of(crs: &Crs, r1cs: &R1cs, q: &Qap, tw: &ToxicWaste, public: Seq<usize>) -> bool {
    let n = q.domain.len() as int;
    let tau = tw.tau@ as int;
    let private = private_of(public, r1cs.num_vars as int);
    let t_tau = eval_mod(q.t.vals(), tau);
    &&& crs.alpha_g1 == enc1(tw.alpha@ as int)
    &&& crs.beta_g1 == enc1(tw.beta@ as int)
    &&& crs.beta_g2 == enc2(tw.beta@ as int)
    &&& crs.gamma_g2 == enc2(tw.gamma@ as int)
    &&& crs.delta_g1 == enc1(tw.delta@ as int)
    &&& crs.delta_g2 == enc2(tw.delta@ as int)
    &&& crs.tau_powers_g1@.len() == n
    &&& crs.tau_powers_g2@.len() == n
    &&& forall|i: int| 0 <= i < n ==> #[trigger] crs.tau_powers_g1@[i] == enc1(fpow(tau, i as nat))
    &&& forall|i: int| 0 <= i < n ==> #[trigger] crs.tau_powers_g2@[i] == enc2(fpow(tau, i as nat))
    &&& crs.public_vars@ == public
    &&& crs.private_vars@ == private
    &&& crs.public_ic_terms@.len() == public.len()
    &&& forall|k: int| 0 <= k < public.len() ==> #[trigger] crs.public_ic_terms@[k]
        == enc1((combined_term(r1cs, q, tw, public[k] as int) * field_inv(tw.gamma@ as int)) % pr())
    &&& crs.private_delta_terms@.len() == private.len()
    &&& forall|k: int| 0 <= k < private.len() ==> #[trigger] crs.private_delta_terms@[k]
        == enc1((combined_term(r1cs, q, tw, private[k] as int) * field_inv(tw.delta@ as int)) % pr())
    &&& crs.h_over_delta_powers@.len() == n
    &&& forall|i: int| 0 <= i < n ==> #[trigger] crs.h_over_delta_powers@[i]
        == enc1((((fpow(tau, i as nat) * t_tau) % pr()) * field_inv(tw.delta@ as int)) % pr())
}

/// The field values that the points of a CRS stand for: each point is the
/// generator of its group multiplied by its value.
pub struct CrsScalars {
    pub alpha: int,
    pub beta: int,
    pub gamma: int,
    pub delta: int,
    pub taus: Seq<int>,
    pub ic: Seq<int>,
    pub private_k: Seq<int>,
    pub hs: Seq<int>,
}

/// Every point of `crs` is the multiple of its generator that `cs` gives.
pub open spec fn crs_repr(crs: &Crs, cs: CrsScalars) -> bool {
    &&& repr1(crs.alpha_g1, cs.alpha)
    &&& repr1(crs.beta_g1, cs.beta)
    &&& repr2(crs.beta_g2, cs.beta)
    &&& repr2(crs.gamma_g2, cs.gamma)
    &&& repr1(crs.delta_g1, cs.delta)
    &&& repr2(crs.delta_g2, cs.delta)
    &&& reprs1(crs.tau_powers_g1@, cs.taus)
    &&& reprs2(crs.tau_powers_g2@, cs.taus)
    &&& reprs1(crs.public_ic_terms@, cs.ic)
    &&& reprs1(crs.private_delta_terms@, cs.private_k)
    &&& reprs1(crs.h_over_delta_powers@, cs.hs)
}

/// The values behind the CRS that `Crs::setup` builds.
pub open spec fn setup_scalars(r1cs: &R1cs, q: &Qap, tw: &ToxicWaste, public: Seq<usize>) -> CrsScalars {
    let n = q.domain.len();
    let tau = tw.tau@ as int;
    let private = private_of(public, r1cs.num_vars as int);
    let t_tau = eval_mod(q.t.vals(), tau);
    CrsScalars {
        alpha: tw.alpha@ as int,
        beta: tw.beta@ as int,
        gamma: tw.gamma@ as int,
        delta: tw.delta@ as int,
        taus: Seq::new(n as nat, |i: int| fpow(tau, i as nat)),
        ic: Seq::new(public.len(), |k: int| (combined_term(r1cs, q, tw, public[k] as int) * field_inv(tw.gamma@ as int)) % pr()),
        private_k: Seq::new(private.len(), |k: int| (combined_term(r1cs, q, tw, private[k] as int) * field_inv(tw.delta@ as int)) % pr()),
        hs: Seq::new(n as nat, |i: int| (((fpow(tau, i as nat) * t_tau) % pr()) * field_inv(tw.delta@ as int)) % pr()),
    }
}

/// The CRS that `Crs::setup` builds is made of multiples of the generators.
pub proof fn lemma_crs_of_repr(crs: &Crs, r1cs: &R1cs, q: &Qap, tw: &ToxicWaste, public: Seq<usize>)
    requires
        crs_of(crs, r1cs, q, tw, public),
    ensures
        crs_repr(crs, setup_scalars(r1cs, q, tw, public)),
{
    let cs = setup_scalars(r1cs, q, tw, public);
    let tau = tw.tau@ as int;
    assert forall|i: int| 0 <= i < crs.tau_powers_g1@.len() implies #[trigger] repr1(crs.tau_powers_g1@[i], cs.taus[i]) by {
        lemma_mod_bound(xpow(tau, i as nat), pr());
    }
    assert forall|i: int| 0 <= i < crs.tau_powers_g2@.len() implies #[trigger] repr2(crs.tau_powers_g2@[i], cs.taus[i]) by {
        lemma_mod_bound(xpow(tau, i as nat), pr());
    }
    assert forall|k: int| 0 <= k < crs.public_ic_terms@.len() implies #[trigger] repr1(crs.public_ic_terms@[k], cs.ic[k]) by {
        lemma_mod_bound(combined_term(r1cs, q, tw, public[k] as int) * field_inv(tw.gamma@ as int), pr());
    }
    assert forall|k: int| 0 <= k < crs.private_delta_terms@.len() implies #[trigger] repr1(crs.private_delta_terms@[k], cs.private_k[k]) by {
        let private = private_of(public, r1cs.num_vars as int);
        lemma_mod_bound(combined_term(r1cs, q, tw, private[k] as int) * field_inv(tw.delta@ as int), pr());
    }
    assert forall|i: int| 0 <= i < crs.h_over_delta_powers@.len() implies #[trigger] repr1(crs.h_over_delta_powers@[i], cs.hs[i]) by {
        let t_tau = eval_mod(q.t.vals(), tau);
        lemma_mod_bound(((fpow(tau, i as nat) * t_tau) % pr()) * field_inv(tw.delta@ as int), pr());
    }
}

/// `sum_{i < k} [coeffs[i]] bases[i]` in `G1`, summed from the identity in order.
pub open spec fn msm1(coeffs: Seq<Fe>, bases: Seq<G1Point>, k: int) -> G1Point
    decreases k,
{
    if k <= 0 {
        G1Point::spec_identity()
    } else {
        g1_add(msm1(coeffs, bases, k - 1), g1_mul(bases[k - 1], coeffs[k - 1]@))
    }
}

/// `sum_{i < k} [coeffs[i]] bases[i]` in `G2`, summed from the identity in order.
pub open spec fn msm2(coeffs: Seq<Fe>, bases: Seq<G2Point>, k: int) -> G2Point
    decreases k,
{
    if k <= 0 {
        G2Point::spec_identity()
    } else {
        g2_add(msm2(coeffs, bases, k - 1), g2_mul(bases[k - 1], coeffs[k - 1]@))
    }
}

/// `sum_{i < k} coeffs[i] * sc[i]` over the integers.
pub open spec fn sum_prod(coeffs: Seq<Fe>, sc: Seq<int>, k: int) -> int
    decreases k,
{
    if k <= 0 { 0 } else { sum_prod(coeffs, sc, k - 1) + coeffs[k - 1]@ * sc[k - 1] }
}

/// Each point of `ps` is `[sc[i]]_1`.
pub open spec fn reprs1(ps: Seq<G1Point>, sc: Seq<int>) -> bool {
    ps.len() == sc.len() && forall|i: int| 0 <= i < ps.len() ==> #[trigger] repr1(ps[i], sc[i])
}

/// Each point of `ps` is `[sc[i]]_2`.
pub open spec fn reprs2(ps: Seq<G2Point>, sc: Seq<int>) -> bool {
    ps.len() == sc.len() && forall|i: int| 0 <= i < ps.len() ==> #[trigger] repr2(ps[i], sc[i])
}

/// One more term of a sum taken modulo the order.
proof fn lemma_sum_step(acc: int, c: int, x: int)
    ensures
        ((acc % pr()) + ((x * c) % pr())) % pr() == (acc + c * x) % pr(),
{
    lemma_add_mod_noop(acc, x * c, pr());
    lemma_mod_twice(acc, pr());
    lemma_mod_twice(x * c, pr());
    assert(x * c == c * x) by (nonlinear_arith);
}

/// The smaller of two lengths.
pub open spec fn min_len(a: nat, b: nat) -> int {
    if a <= b { a as int } else { b as int }
}

/// The multi-scalar multiplication `sum_i [coeffs[i]] bases[i]` over the
/// common length of the two slices.
pub fn msm_g1(coeffs: &[Fe], bases: &[G1Point]) -> (r: G1Point)
    ensures
        r == msm1(coeffs@, bases@, min_len(coeffs@.len(), bases@.len())),
        forall|sc: Seq<int>| #[trigger] reprs1(bases@, sc) ==>
            repr1(r, sum_prod(coeffs@, sc, min_len(coeffs@.len(), bases@.len())) % pr()),
{
    let n: usize = if coeffs.len() <= bases.len() { coeffs.len() } else { bases.len() };
    let mut acc = G1Point::identity();
    let mut i: usize = 0;
    assert(0int % pr() == 0);
    while i < n
        invariant
            i <= n,
            n <= coeffs.len(),
            n <= bases.len(),
            acc == msm1(coeffs@, bases@, i as int),
            forall|sc: Seq<int>| #[trigger] reprs1(bases@, sc) ==> repr1(acc, sum_prod(coeffs@, sc, i as int) % pr()),
        decreases n - i,
    {
        let m = bases[i].mul(&coeffs[i]);
        let ghost old_acc = acc;
        acc = acc.add(&m);
        proof {
            assert forall|sc: Seq<int>| #[trigger] reprs1(bases@, sc) implies
                repr1(acc, sum_prod(coeffs@, sc, i + 1) % pr()) by {
                let x = sum_prod(coeffs@, sc, i as int) % pr();
                assert(repr1(old_acc, x));
                assert(repr1(bases@[i as int], sc[i as int]));
                let y = (sc[i as int] * coeffs@[i as int]@) % pr();
                assert(repr1(m, y));
                lemma_sum_step(sum_prod(coeffs@, sc, i as int), coeffs@[i as int]@ as int, sc[i as int]);
            }
        }
        i += 1;
    }
    acc
}

/// The multi-scalar multiplication `sum_i [coeffs[i]] bases[i]` in `G2`
/// over the common length of the two slices.
pub fn msm_g2(coeffs: &[Fe], bases: &[G2Point]) -> (r: G2Point)
    ensures
        r == msm2(coeffs@, bases@, min_len(coeffs@.len(), bases@.len())),
        forall|sc: Seq<int>| #[trigger] reprs2(bases@, sc) ==>
            repr2(r, sum_prod(coeffs@, sc, min_len(coeffs@.len(), bases@.len())) % pr()),
{
    let n: usize = if coeffs.len() <= bases.len() { coeffs.len() } else { bases.len() };
    let mut acc = G2Point::identity();
    let mut i: usize = 0;
    assert(0int % pr() == 0);
    while i < n
        invariant
            i <= n,
            n <= coeffs.len(),
            n <= bases.len(),
            acc == msm2(coeffs@, bases@, i as int),
            forall|sc: Seq<int>| #[trigger] reprs2(bases@, sc) ==> repr2(acc, sum_prod(coeffs@, sc, i as int) % pr()),
        decreases n - i,
    {
        let m = bases[i].mul(&coeffs[i]);
        let ghost old_acc = acc;
        acc = acc.add(&m);
        proof {
            assert forall|sc: Seq<int>| #[trigger] reprs2(bases@, sc) implies
                repr2(acc, sum_prod(coeffs@, sc, i + 1) % pr()) by {
                let x = sum_prod(coeffs@, sc, i as int) % pr();
                assert(repr2(old_acc, x));
                assert(repr2(bases@[i as int], sc[i as int]));
                let y = (sc[i as int] * coeffs@[i as int]@) % pr();
                assert(repr2(m, y));
                lemma_sum_step(sum_prod(coeffs@, sc, i as int), coeffs@[i as int]@ as int, sc[i as int]);
            }
        }
        i += 1;
    }
    acc
}

/// Whether `v` holds `x`.
fn contains(v: &[usize], x: usize) -> (b: bool)
    ensures
        b == v@.contains(x),
{
    let mut i: usize = 0;
    while i < v.len()
        invariant
            i <= v.len(),
            forall|k: int| 0 <= k < i ==> v@[k] != x,
        decreases v.len() - i,
    {
        if v[i] == x {
            assert(v@[i as int] == x);
            return true;
        }
        i += 1;
    }
    false
}

/// `t^(i+1) = t^i * t` in the field.
proof fn lemma_fpow_step(t: int, i: nat, acc: int)
    requires
        acc == fpow(t, i),
    ensures
        (acc * t) % pr() == fpow(t, i + 1),
{
    lemma_mul_mod_noop_left(xpow(t, i), t, pr());
    assert(xpow(t, i + 1) == t * xpow(t, i));
    assert(xpow(t, i) * t == t * xpow(t, i)) by (nonlinear_arith);
}

/// `beta * u(tau) + alpha * v(tau) + w(tau)` for three basis polynomials.
fn combine_at_tau(u: &Poly, v: &Poly, w: &Poly, tw: &ToxicWaste) -> (r: Fe)
    ensures
        r@ == (tw.beta@ * eval_mod(u.vals(), tw.tau@ as int) + tw.alpha@ * eval_mod(v.vals(), tw.tau@ as int)
            + eval_mod(w.vals(), tw.tau@ as int)) % pr(),
{
    let ue = u.eval(tw.tau);
    let ve = v.eval(tw.tau);
    let we = w.eval(tw.tau);
    let r = tw.beta.mul(&ue).add(&tw.alpha.mul(&ve)).add(&we);
    proof {
        let bu: int = (tw.beta@ * ue@) as int;
        let av: int = (tw.alpha@ * ve@) as int;
        lemma_cong_mod(bu);
        lemma_cong_mod(av);
        lemma_cong_add((bu % pr()), bu, (av % pr()), av);
        lemma_cong_mod(bu % pr() + av % pr());
        lemma_cong_add((bu % pr() + av % pr()) % pr(), bu + av, we@ as int, we@ as int);
        lemma_cong_mod((bu % pr() + av % pr()) % pr() + we@);
        lemma_small_mod(r@, pr() as nat);
        lemma_cong_mod(bu + av + we@);
    }
    r
}

impl Crs {
    /// Builds the CRS for `r1cs` and its QAP from the toxic waste `tw`;
    /// `public_vars` are the witness variables that the verifier sees.
    pub fn setup(r1cs: &R1cs, qap: &Qap, tw: &ToxicWaste, public_vars: &[usize]) -> (crs: Crs)
        requires
            shaped(r1cs.a@, qap.domain.len() as int, r1cs.num_vars as int),
            shaped(r1cs.b@, qap.domain.len() as int, r1cs.num_vars as int),
            shaped(r1cs.c@, qap.domain.len() as int, r1cs.num_vars as int),
            distinct_points(qap.dom()),
            qap.domain.len() < usize::MAX,
            forall|k: int| 0 <= k < public_vars.len() ==> #[trigger] public_vars[k] < r1cs.num_vars,
            tw.gamma@ != 0,
            tw.delta@ != 0,
        ensures
            crs_of(&crs, r1cs, qap, tw, public_vars@),
            crs_repr(&crs, setup_scalars(r1cs, qap, tw, public_vars@)),
            forall|k: int| 0 <= k < crs.private_vars.len() ==> #[trigger] crs.private_vars[k] < r1cs.num_vars,
            qap.domain.len() > 0 ==> crs.tau_powers_g1[0] == G1Point::spec_generator()
                && crs.tau_powers_g2[0] == G2Point::spec_generator(),
    {
        let g1 = G1Point::generator();
        let g2 = G2Point::generator();
        let deg_points: usize = qap.domain.len();
        let ghost tau = tw.tau@ as int;

        let mut tau_powers_g1: Vec<G1Point> = Vec::new();
        let mut tau_powers_g2: Vec<G2Point> = Vec::new();
        let mut acc = Fe::one();
        let mut i: usize = 0;
        proof {
            lemma_small_mod(1nat, pr() as nat);
        }
        while i < deg_points
            invariant
                i <= deg_points,
                tau == tw.tau@,
                g1 == G1Point::spec_generator(),
                g2 == G2Point::spec_generator(),
                acc@ == fpow(tau, i as nat),
                tau_powers_g1@.len() == i,
                tau_powers_g2@.len() == i,
                forall|k: int| 0 <= k < i ==> #[trigger] tau_powers_g1@[k] == enc1(fpow(tau, k as nat)),
                forall|k: int| 0 <= k < i ==> #[trigger] tau_powers_g2@[k] == enc2(fpow(tau, k as nat)),
                i > 0 ==> tau_powers_g1@[0] == G1Point::spec_generator() && tau_powers_g2@[0] == G2Point::spec_generator(),
            decreases deg_points - i,
        {
            proof {
                if i == 0 {
                    lemma_small_mod(1nat, pr() as nat);
                }
            }
            tau_powers_g1.push(g1.mul(&acc));
            tau_powers_g2.push(g2.mul(&acc));
            proof {
                lemma_fpow_step(tau, i as nat, acc@ as int);
            }
            acc = acc.mul(&tw.tau);
            i += 1;
        }

        let a_basis = qap.column_polys(r1cs.a.as_slice(), r1cs.num_vars);
        let b_basis = qap.column_polys(r1cs.b.as_slice(), r1cs.num_vars);
        let c_basis = qap.column_polys(r1cs.c.as_slice(), r1cs.num_vars);

        let mut private_vars: Vec<usize> = Vec::new();
        let mut j: usize = 0;
        while j < r1cs.num_vars
            invariant
                j <= r1cs.num_vars,
                private_vars@ == private_of(public_vars@, j as int),
                forall|k: int| 0 <= k < private_vars@.len() ==> #[trigger] private_vars@[k] < j,
            decreases r1cs.num_vars - j,
        {
            if !contains(public_vars, j) {
                private_vars.push(j);
            }
            j += 1;
        }

        let gamma_inv = tw.gamma.inverse().unwrap();
        let delta_inv = tw.delta.inverse().unwrap();
        proof {
            lemma_small_mod(1nat, pr() as nat);
            lemma_field_inv_unique(tw.gamma@ as int, gamma_inv@ as int);
            lemma_field_inv_unique(tw.delta@ as int, delta_inv@ as int);
        }

        let mut public_ic_terms: Vec<G1Point> = Vec::new();
        let mut k: usize = 0;
        while k < public_vars.len()
            invariant
                k <= public_vars.len(),
                g1 == G1Point::spec_generator(),
                a_basis.len() == r1cs.num_vars,
                b_basis.len() == r1cs.num_vars,
                c_basis.len() == r1cs.num_vars,
                forall|jj: int, x: int| 0 <= jj < r1cs.num_vars ==>
                    #[trigger] eval_mod(a_basis[jj].vals(), x) == lagrange_eval(qap.dom(), col_vals(r1cs.a@, jj, qap.domain.len() as int), x),
                forall|jj: int, x: int| 0 <= jj < r1cs.num_vars ==>
                    #[trigger] eval_mod(b_basis[jj].vals(), x) == lagrange_eval(qap.dom(), col_vals(r1cs.b@, jj, qap.domain.len() as int), x),
                forall|jj: int, x: int| 0 <= jj < r1cs.num_vars ==>
                    #[trigger] eval_mod(c_basis[jj].vals(), x) == lagrange_eval(qap.dom(), col_vals(r1cs.c@, jj, qap.domain.len() as int), x),
                forall|kk: int| 0 <= kk < public_vars.len() ==> #[trigger] public_vars[kk] < r1cs.num_vars,
                gamma_inv@ == field_inv(tw.gamma@ as int),
                public_ic_terms@.len() == k,
                forall|kk: int| 0 <= kk < k ==> #[trigger] public_ic_terms@[kk]
                    == enc1((combined_term(r1cs, qap, tw, public_vars@[kk] as int) * field_inv(tw.gamma@ as int)) % pr()),
            decreases public_vars.len() - k,
        {
            let jv = public_vars[k];
            let term = combine_at_tau(&a_basis[jv], &b_basis[jv], &c_basis[jv], tw);
            let scaled = term.mul(&gamma_inv);
            proof {
                assert(public_vars@[k as int] < r1cs.num_vars);
                assert(term@ == combined_term(r1cs, qap, tw, jv as int));
            }
            public_ic_terms.push(g1.mul(&scaled));
            k += 1;
        }

        let mut private_delta_terms: Vec<G1Point> = Vec::new();
        let mut k: usize = 0;
        while k < private_vars.len()
            invariant
                k <= private_vars.len(),
                g1 == G1Point::spec_generator(),
                a_basis.len() == r1cs.num_vars,
                b_basis.len() == r1cs.num_vars,
                c_basis.len() == r1cs.num_vars,
                forall|jj: int, x: int| 0 <= jj < r1cs.num_vars ==>
                    #[trigger] eval_mod(a_basis[jj].vals(), x) == lagrange_eval(qap.dom(), col_vals(r1cs.a@, jj, qap.domain.len() as int), x),
                forall|jj: int, x: int| 0 <= jj < r1cs.num_vars ==>
                    #[trigger] eval_mod(b_basis[jj].vals(), x) == lagrange_eval(qap.dom(), col_vals(r1cs.b@, jj, qap.domain.len() as int), x),
                forall|jj: int, x: int| 0 <= jj < r1cs.num_vars ==>
                    #[trigger] eval_mod(c_basis[jj].vals(), x) == lagrange_eval(qap.dom(), col_vals(r1cs.c@, jj, qap.domain.len() as int), x),
                forall|kk: int| 0 <= kk < private_vars@.len() ==> #[trigger] private_vars@[kk] < r1cs.num_vars,
                delta_inv@ == field_inv(tw.delta@ as int),
                private_delta_terms@.len() == k,
                forall|kk: int| 0 <= kk < k ==> #[trigger] private_delta_terms@[kk]
                    == enc1((combined_term(r1cs, qap, tw, private_vars@[kk] as int) * field_inv(tw.delta@ as int)) % pr()),
            decreases private_vars.len() - k,
        {
            let jv = private_vars[k];
            let term = combine_at_tau(&a_basis[jv], &b_basis[jv], &c_basis[jv], tw);
            let scaled = term.mul(&delta_inv);
            proof {
                assert(private_vars@[k as int] < r1cs.num_vars);
                assert(term@ == combined_term(r1cs, qap, tw, jv as int));
            }
            private_delta_terms.push(g1.mul(&scaled));
            k += 1;
        }

        let t_tau = qap.t.eval(tw.tau);
        let mut h_over_delta_powers: Vec<G1Point> = Vec::new();
        let mut tau_pow = Fe::one();
        let mut i: usize = 0;
        proof {
            lemma_small_mod(1nat, pr() as nat);
        }
        while i < deg_points
            invariant
                i <= deg_points,
                tau == tw.tau@,
                g1 == G1Point::spec_generator(),
                tau_pow@ == fpow(tau, i as nat),
                t_tau@ == eval_mod(qap.t.vals(), tau),
                delta_inv@ == field_inv(tw.delta@ as int),
                h_over_delta_powers@.len() == i,
                forall|kk: int| 0 <= kk < i ==> #[trigger] h_over_delta_powers@[kk]
                    == enc1((((fpow(tau, kk as nat) * eval_mod(qap.t.vals(), tau)) % pr()) * field_inv(tw.delta@ as int)) % pr()),
            decreases deg_points - i,
        {
            let v = tau_pow.mul(&t_tau).mul(&delta_inv);
            h_over_delta_powers.push(g1.mul(&v));
            proof {
                lemma_fpow_step(tau, i as nat, tau_pow@ as int);
            }
            tau_pow = tau_pow.mul(&tw.tau);
            i += 1;
        }

        let alpha_g1 = g1.mul(&tw.alpha);
        let beta_g1 = g1.mul(&tw.beta);
        let beta_g2 = g2.mul(&tw.beta);
        let gamma_g2 = g2.mul(&tw.gamma);
        let delta_g1 = g1.mul(&tw.delta);
        let delta_g2 = g2.mul(&tw.delta);
        let public_copy = public_vars_to_vec(public_vars);
        let crs = Crs {
            alpha_g1,
            beta_g1,
            beta_g2,
            gamma_g2,
            delta_g1,
            delta_g2,
            tau_powers_g1,
            tau_powers_g2,
            public_ic_terms,
            private_delta_terms,
            h_over_delta_powers,
            public_vars: public_copy,
            private_vars,
        };
        proof {
            lemma_crs_of_repr(&crs, r1cs, qap, tw, public_vars@);
        }
        crs
    }
}

/// A copy of a slice of indices.
fn public_vars_to_vec(v: &[usize]) -> (r: Vec<usize>)
    ensures
        r@ == v@,
{
    let mut r: Vec<usize> = Vec::new();
    let mut i: usize = 0;
    while i < v.len()
        invariant
            i <= v.len(),
            r@ == v@.subrange(0, i as int),
        decreases v.len() - i,
    {
        r.push(v[i]);
        i += 1;
    }
    assert(v@.subrange(0, v.len() as int) =~= v@);
    r
}

} // verus!
