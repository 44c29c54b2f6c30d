//! Completeness of the proof system: a proof made honestly from the QAP
//! polynomials of a witness passes the verification equation, stated over
//! the field values that the points of the CRS and of the proof stand for.

use vstd::prelude::*;
use vstd::arithmetic::div_mod::lemma_mod_bound;
use vstd::arithmetic::mul::{
    lemma_mul_is_associative, lemma_mul_is_commutative, lemma_mul_is_distributive_add,
    lemma_mul_is_distributive_add_other_way,
};
use crate::finite_field::{Fe, fe_vals, lemma_val_lt_modulus};
use crate::poly_math::{
    cong, eval_mod, field_inv, invertible, is_inverse, lagrange_eval, peval, pr, xpow, lemma_cong_add, lemma_cong_mod,
    lemma_cong_mul, lemma_cong_sub, lemma_field_inv_unique, lemma_peval_push_zero, lemma_peval_update,
};
use crate::trusted_setup::{
    CrsScalars, ToxicWaste, col_eval, combined_term, fpow, min_len, private_of, setup_scalars, sum_prod,
};
use crate::prover::{msc, private_sum_scalar, proof_a_scalar, proof_b_scalar, proof_c_scalar};
use crate::qap::{Qap, col_combo, col_vals, qap_holds};
use crate::verify::scalar_check;
use crate::r1cs::R1cs;

verus! {

broadcast use lemma_val_lt_modulus;

/// `sum_{i < k} f(idx[i])`.
pub open spec fn sum_idx(f: spec_fn(int) -> int, idx: Seq<usize>, k: int) -> int
    decreases k,
{
    if k <= 0 { 0 } else { sum_idx(f, idx, k - 1) + f(idx[k - 1] as int) }
}

/// `sum_{j < n} f(j)` over the `j` that `pubs` holds (`inside`) or does not hold.
pub open spec fn sum_where(f: spec_fn(int) -> int, pubs: Seq<usize>, inside: bool, n: int) -> int
    decreases n,
{
    if n <= 0 {
        0
    } else {
        sum_where(f, pubs, inside, n - 1) + if pubs.contains((n - 1) as usize) == inside { f(n - 1) } else { 0 }
    }
}

/// `sum_{j < n} f(j)`.
pub open spec fn sum_upto(f: spec_fn(int) -> int, n: int) -> int
    decreases n,
{
    if n <= 0 { 0 } else { sum_upto(f, n - 1) + f(n - 1) }
}

/// Appending a coefficient adds it times the next power of `x`.
proof fn lemma_peval_push(t: Seq<int>, v: int, x: int)
    ensures
        peval(t.push(v), x) == peval(t, x) + v * xpow(x, t.len()),
{
    lemma_peval_push_zero(t, x);
    lemma_peval_update(t.push(0), t.len() as int, v, x);
    assert(t.push(0).update(t.len() as int, v) =~= t.push(v));
}

/// A sum of coefficients times values congruent to the powers of `x`
/// (scaled by `c`) is the polynomial's value at `x`, scaled by `c`.
proof fn lemma_sum_powers(s: Seq<Fe>, sc: Seq<int>, x: int, c: int, k: int)
    requires
        0 <= k <= s.len(),
        k <= sc.len(),
        forall|i: int| 0 <= i < k ==> #[trigger] cong(sc[i], xpow(x, i as nat) * c),
    ensures
        cong(sum_prod(s, sc, k), peval(fe_vals(s).take(k), x) * c),
    decreases k,
{
    if k > 0 {
        lemma_sum_powers(s, sc, x, c, k - 1);
        let t = fe_vals(s).take(k - 1);
        let v = s[k - 1].val() as int;
        assert(fe_vals(s).take(k) =~= t.push(v));
        lemma_peval_push(t, v, x);
        let xp = xpow(x, (k - 1) as nat);
        assert(cong(sc[k - 1], xp * c));
        lemma_cong_mul(v, v, sc[k - 1], xp * c);
        lemma_cong_add(sum_prod(s, sc, k - 1), peval(t, x) * c, v * sc[k - 1], v * (xp * c));
        assert((peval(t, x) + v * xp) * c == peval(t, x) * c + v * (xp * c)) by (nonlinear_arith);
    }
}

/// A sum only reads the first `k` indices.
proof fn lemma_sum_idx_prefix(f: spec_fn(int) -> int, i1: Seq<usize>, i2: Seq<usize>, k: int)
    requires
        k <= i1.len(),
        k <= i2.len(),
        forall|i: int| 0 <= i < k ==> i1[i] == i2[i],
    ensures
        sum_idx(f, i1, k) == sum_idx(f, i2, k),
    decreases k,
{
    if k > 0 {
        lemma_sum_idx_prefix(f, i1, i2, k - 1);
    }
}

/// Every `j < n` is either held by `pubs` or not.
proof fn lemma_sum_split(f: spec_fn(int) -> int, pubs: Seq<usize>, n: int)
    ensures
        sum_upto(f, n) == sum_where(f, pubs, true, n) + sum_where(f, pubs, false, n),
    decreases n,
{
    if n > 0 {
        lemma_sum_split(f, pubs, n - 1);
    }
}

/// The sum over the variables that `private_of` lists is the sum over the
/// variables below `n` that `pubs` does not hold.
proof fn lemma_private_sum(f: spec_fn(int) -> int, pubs: Seq<usize>, n: int)
    requires
        0 <= n <= usize::MAX,
    ensures
        sum_idx(f, private_of(pubs, n), private_of(pubs, n).len() as int) == sum_where(f, pubs, false, n),
    decreases n,
{
    if n > 0 {
        lemma_private_sum(f, pubs, n - 1);
        let p = private_of(pubs, n - 1);
        let x = (n - 1) as usize;
        if !pubs.contains(x) {
            assert(private_of(pubs, n) == p.push(x));
            lemma_sum_idx_prefix(f, p.push(x), p, p.len() as int);
        }
    }
}

/// Adding an index that was not there adds its term to the sum over the
/// held indices below `m`.
proof fn lemma_where_insert(f: spec_fn(int) -> int, p: Seq<usize>, x: usize, m: int)
    requires
        !p.contains(x),
        m <= usize::MAX + 1,
    ensures
        sum_where(f, p.push(x), true, m) == sum_where(f, p, true, m) + if 0 <= x < m { f(x as int) } else { 0 },
    decreases m,
{
    if m > 0 {
        lemma_where_insert(f, p, x, m - 1);
        let j = (m - 1) as usize;
        let q = p.push(x);
        if j == x {
            assert(q[p.len() as int] == x);
            assert(q.contains(j));
        } else {
            if p.contains(j) {
                let i = choose|i: int| 0 <= i < p.len() && p[i] == j;
                assert(q[i] == j);
            }
            if q.contains(j) {
                let i = choose|i: int| 0 <= i < q.len() && q[i] == j;
                assert(i < p.len());
                assert(p[i] == j);
            }
        }
    }
}

/// Distinct indices below `n` sum to the sum over the variables below `n`
/// that they hold.
proof fn lemma_public_sum(f: spec_fn(int) -> int, pubs: Seq<usize>, n: int)
    requires
        n <= usize::MAX + 1,
        forall|i: int, j: int| 0 <= i < j < pubs.len() ==> pubs[i] != pubs[j],
        forall|i: int| 0 <= i < pubs.len() ==> #[trigger] pubs[i] < n,
    ensures
        sum_idx(f, pubs, pubs.len() as int) == sum_where(f, pubs, true, n),
    decreases pubs.len(),
{
    if pubs.len() == 0 {
        lemma_where_empty(f, pubs, n);
    } else {
        let q = pubs.drop_last();
        let x = pubs.last();
        assert(pubs =~= q.push(x));
        assert(x < n);
        if q.contains(x) {
            let i = choose|i: int| 0 <= i < q.len() && q[i] == x;
            assert(pubs[i] == pubs[pubs.len() - 1]);
        }
        lemma_public_sum(f, q, n);
        lemma_where_insert(f, q, x, n);
        lemma_sum_idx_prefix(f, pubs, q, q.len() as int);
    }
}

/// No index is held by the empty sequence.
proof fn lemma_where_empty(f: spec_fn(int) -> int, pubs: Seq<usize>, m: int)
    requires
        pubs.len() == 0,
    ensures
        sum_where(f, pubs, true, m) == 0,
    decreases m,
{
    if m > 0 {
        lemma_where_empty(f, pubs, m - 1);
    }
}

/// `j |-> w_j * (beta * u_j(tau) + alpha * v_j(tau) + w_j(tau))`: the
/// weighted term of variable `j` in the CRS.
pub open spec fn weighted_term(r1cs: &R1cs, q: &Qap, tw: &ToxicWaste, w: Seq<Fe>) -> spec_fn(int) -> int {
    |j: int| w[j].val() * combined_term(r1cs, q, tw, j)
}

/// A sum over chosen witness entries of terms congruent to `f` scaled by `m`.
proof fn lemma_private_scaled(vars: Seq<usize>, ks: Seq<int>, w: Seq<Fe>, f: spec_fn(int) -> int, m: int, k: int)
    requires
        0 <= k,
        forall|i: int| 0 <= i < k ==> #[trigger] cong(w[vars[i] as int].val() * ks[i], f(vars[i] as int) * m),
    ensures
        cong(private_sum_scalar(vars, ks, w, k), sum_idx(f, vars, k) * m),
    decreases k,
{
    if k > 0 {
        lemma_private_scaled(vars, ks, w, f, m, k - 1);
        let i = k - 1;
        assert(cong(w[vars[i] as int].val() * ks[i], f(vars[i] as int) * m));
        lemma_cong_add(
            private_sum_scalar(vars, ks, w, i), sum_idx(f, vars, i) * m,
            w[vars[i] as int].val() * ks[i], f(vars[i] as int) * m,
        );
        let a = sum_idx(f, vars, i);
        let b = f(vars[i] as int);
        assert((a + b) * m == a * m + b * m) by (nonlinear_arith);
    }
}

/// A sum of coefficients times values whose products are congruent to `f`
/// of an index, scaled by `m`.
proof fn lemma_public_scaled(c: Seq<Fe>, sc: Seq<int>, idx: Seq<usize>, f: spec_fn(int) -> int, m: int, k: int)
    requires
        0 <= k,
        forall|i: int| 0 <= i < k ==> #[trigger] cong(c[i].val() * sc[i], f(idx[i] as int) * m),
    ensures
        cong(sum_prod(c, sc, k), sum_idx(f, idx, k) * m),
    decreases k,
{
    if k > 0 {
        lemma_public_scaled(c, sc, idx, f, m, k - 1);
        let i = k - 1;
        assert(cong(c[i].val() * sc[i], f(idx[i] as int) * m));
        lemma_cong_add(sum_prod(c, sc, i), sum_idx(f, idx, i) * m, c[i].val() * sc[i], f(idx[i] as int) * m);
        let a = sum_idx(f, idx, i);
        let b = f(idx[i] as int);
        assert((a + b) * m == a * m + b * m) by (nonlinear_arith);
    }
}

/// The weighted terms of all variables add up to
/// `beta * a(tau) + alpha * b(tau) + c(tau)` for the witness combinations.
proof fn lemma_total(r1cs: &R1cs, q: &Qap, tw: &ToxicWaste, w: Seq<Fe>, n: int)
    requires
        0 <= n <= w.len(),
    ensures
        cong(
            sum_upto(weighted_term(r1cs, q, tw, w), n),
            tw.beta.val() * col_combo(q, r1cs.a@, fe_vals(w), n, tw.tau.val() as int)
                + tw.alpha.val() * col_combo(q, r1cs.b@, fe_vals(w), n, tw.tau.val() as int)
                + col_combo(q, r1cs.c@, fe_vals(w), n, tw.tau.val() as int),
        ),
    decreases n,
{
    if n > 0 {
        lemma_total(r1cs, q, tw, w, n - 1);
        let j = n - 1;
        let x = tw.tau.val() as int;
        let wj = w[j].val() as int;
        assert(fe_vals(w)[j] == wj);
        let u = col_eval(q, r1cs.a@, j, x);
        let v = col_eval(q, r1cs.b@, j, x);
        let t = col_eval(q, r1cs.c@, j, x);
        let be = tw.beta.val() as int;
        let al = tw.alpha.val() as int;
        let e = be * u + al * v + t;
        assert(combined_term(r1cs, q, tw, j) == e % pr());
        lemma_cong_mod(e);
        lemma_cong_mul(wj, wj, e % pr(), e);
        let ca = col_combo(q, r1cs.a@, fe_vals(w), j, x);
        let cb = col_combo(q, r1cs.b@, fe_vals(w), j, x);
        let cc = col_combo(q, r1cs.c@, fe_vals(w), j, x);
        lemma_cong_add(sum_upto(weighted_term(r1cs, q, tw, w), j), be * ca + al * cb + cc, wj * (e % pr()), wj * e);
        lemma_mul_is_distributive_add(wj, be * u + al * v, t);
        lemma_mul_is_distributive_add(wj, be * u, al * v);
        assert(wj * (be * u) == be * (wj * u)) by (nonlinear_arith);
        assert(wj * (al * v) == al * (wj * v)) by (nonlinear_arith);
        lemma_mul_is_distributive_add(be, ca, wj * u);
        lemma_mul_is_distributive_add(al, cb, wj * v);
    }
}

/// `field_inv(a)` is an inverse of an invertible `a`.
proof fn lemma_inverse(a: int)
    requires
        invertible(a),
    ensures
        cong(a * field_inv(a), 1),
{
    let w = choose|w: int| #[trigger] is_inverse(a, w);
    lemma_cong_mod(w);
    lemma_cong_mul(a, a, w % pr(), w);
    lemma_mod_bound(w, pr());
    lemma_field_inv_unique(a, w % pr());
}

/// A sum of coefficients against values congruent to the powers of `x`
/// (scaled by `c`), reduced, is the value at `x` scaled by `c`.
proof fn lemma_at_point(s: Seq<Fe>, sc: Seq<int>, x: int, c: int)
    requires
        s.len() <= sc.len(),
        forall|i: int| 0 <= i < sc.len() ==> #[trigger] cong(sc[i], xpow(x, i as nat) * c),
    ensures
        cong(msc(s, sc), eval_mod(fe_vals(s), x) * c),
{
    lemma_sum_powers(s, sc, x, c, s.len() as int);
    assert(fe_vals(s).take(s.len() as int) =~= fe_vals(s));
    let v = peval(fe_vals(s), x);
    lemma_cong_mod(v);
    lemma_cong_mul(v, v % pr(), c, c);
    lemma_cong_mod(sum_prod(s, sc, s.len() as int));
}

/// Blinding: `(x + d r) (y + d s) = x y + s d (x + d r) + r d (y + d s) - d r s d`.
proof fn lemma_blinding_identity(x: int, y: int, d: int, r: int, s: int)
    ensures
        (x + d * r) * (y + d * s) == x * y + (x + d * r) * s * d + (y + d * s) * r * d - d * (r * s) * d,
{
    let dr = d * r;
    let ds = d * s;
    lemma_mul_is_distributive_add(x + dr, y, ds);
    lemma_mul_is_distributive_add_other_way(y, x, dr);
    lemma_mul_is_distributive_add_other_way(ds, x, dr);
    lemma_mul_is_distributive_add_other_way(s, x, dr);
    lemma_mul_is_distributive_add_other_way(d, x * s, dr * s);
    lemma_mul_is_distributive_add_other_way(r, y, ds);
    lemma_mul_is_distributive_add_other_way(d, y * r, ds * r);
    assert(x * (d * s) == (x * s) * d) by (nonlinear_arith);
    assert((d * r) * y == (y * r) * d) by (nonlinear_arith);
    assert((d * r) * (d * s) == ((d * r) * s) * d) by (nonlinear_arith);
    assert(((d * r) * s) * d == ((d * s) * r) * d) by (nonlinear_arith);
    assert(((d * r) * s) * d == d * (r * s) * d) by (nonlinear_arith);
}

/// `(x + a) (y + b) = x y + (y a + x b + c) + (a b - c)`.
proof fn lemma_cross_identity(x: int, y: int, a: int, b: int, c: int)
    by (nonlinear_arith)
    ensures
        (x + a) * (y + b) == x * y + (y * a + x * b + c) + (a * b - c),
{
}

/// Distribution of a product over a sum of five terms.
proof fn lemma_distribute(a: int, b: int, c: int, e: int, f: int, d: int)
    by (nonlinear_arith)
    ensures
        (a + b + c + e - f) * d == a * d + b * d + c * d + e * d - f * d,
{
}

/// `(x y) z` is congruent to `x` when `y z` is congruent to one.
proof fn lemma_cancel(x: int, y: int, z: int)
    requires
        cong(y * z, 1),
    ensures
        cong((x * y) * z, x),
{
    lemma_mul_is_associative(x, y, z);
    lemma_cong_mul(x, x, y * z, 1);
}

/// The ring identity behind completeness: with `A = alpha + a + delta r`,
/// `B = beta + b + delta s`, the inverses `gi` of `gamma` and `di` of
/// `delta`, the weighted sums `spub + spriv = beta a + alpha b + c` and
/// `ht = a b - c`,
/// `A B = alpha beta + (spub / gamma) gamma + (spriv / delta + ht / delta + s A + r B - r s delta) delta`.
proof fn lemma_groth16_algebra(
    al: int, be: int, ga: int, gi: int, de: int, di: int,
    at: int, bt: int, ct: int, ht: int, spub: int, spriv: int, r: int, s: int,
)
    requires
        cong(ga * gi, 1),
        cong(de * di, 1),
        cong(spub + spriv, be * at + al * bt + ct),
        cong(at * bt - ct, ht),
    ensures
        cong(
            (al + at + de * r) * (be + bt + de * s),
            al * be + (spub * gi) * ga
                + (spriv * di + ht * di + (al + at + de * r) * s + (be + bt + de * s) * r - de * (r * s)) * de,
        ),
{
    let pa = al + at + de * r;
    let pb = be + bt + de * s;
    let k = pa * s * de + pb * r * de - de * (r * s) * de;
    lemma_mul_is_commutative(ga, gi);
    lemma_mul_is_commutative(de, di);
    lemma_cancel(spub, gi, ga);
    lemma_cancel(spriv, di, de);
    lemma_cancel(ht, di, de);
    lemma_distribute(spriv * di, ht * di, pa * s, pb * r, de * (r * s), de);
    let t1 = (spub * gi) * ga;
    let t2 = (spriv * di) * de;
    let t3 = (ht * di) * de;
    // the right side is alpha beta + t1 + t2 + t3 + k
    lemma_cong_add(t1, spub, t2, spriv);
    lemma_cong_add(t1 + t2, spub + spriv, t3, ht);
    lemma_cong_add(spub + spriv, be * at + al * bt + ct, ht, at * bt - ct);
    lemma_cong_add(al * be + k, al * be + k, t1 + t2 + t3, be * at + al * bt + ct + (at * bt - ct));
    lemma_cross_identity(al, be, at, bt, ct);
    lemma_blinding_identity(al + at, be + bt, de, r, s);
}

/// Over an empty domain every column polynomial is zero, and so is every
/// combination of them.
proof fn lemma_col_combo_empty(q: &Qap, m: Seq<Vec<i64>>, w: Seq<int>, k: int, x: int)
    requires
        q.domain.len() == 0,
    ensures
        col_combo(q, m, w, k, x) == 0,
    decreases k,
{
    if k > 0 {
        lemma_col_combo_empty(q, m, w, k - 1, x);
        assert(lagrange_eval(q.dom(), col_vals(m, k - 1, 0), x) == 0) by {
            assert(0int % pr() == 0);
        }
        assert(w[k - 1] * 0 == 0);
    }
}

/// Completeness of the proof system. Take the CRS that `Crs::setup` builds
/// from the toxic waste `tw` (with `gamma` and `delta` invertible) and the
/// distinct public variables `public`, a witness `w` whose QAP polynomials
/// `a`, `b`, `c` (with no more coefficients than the domain has points,
/// or one when it has none) and quotient `h` satisfy
/// `a * b - c = h * t`, and the public values that `w` gives. Then for any
/// blinding `r`, `s`, the values behind the proof that `prove` makes satisfy
/// the verification equation.
pub proof fn lemma_honest_proof_passes(
    r1cs: &R1cs,
    q: &Qap,
    tw: &ToxicWaste,
    public: Seq<usize>,
    w: Seq<Fe>,
    public_values: Seq<Fe>,
    a: Seq<Fe>,
    b: Seq<Fe>,
    c: Seq<Fe>,
    h: Seq<Fe>,
    r: int,
    s: int,
)
    requires
        w.len() == r1cs.num_vars,
        forall|i: int, j: int| 0 <= i < j < public.len() ==> public[i] != public[j],
        forall|k: int| 0 <= k < public.len() ==> #[trigger] public[k] < r1cs.num_vars,
        public_values.len() == public.len(),
        forall|k: int| 0 <= k < public.len() ==> #[trigger] public_values[k] == w[public[k] as int],
        forall|x: int| #[trigger] eval_mod(fe_vals(a), x)
            == col_combo(q, r1cs.a@, fe_vals(w), r1cs.num_vars as int, x) % pr(),
        forall|x: int| #[trigger] eval_mod(fe_vals(b), x)
            == col_combo(q, r1cs.b@, fe_vals(w), r1cs.num_vars as int, x) % pr(),
        forall|x: int| #[trigger] eval_mod(fe_vals(c), x)
            == col_combo(q, r1cs.c@, fe_vals(w), r1cs.num_vars as int, x) % pr(),
        qap_holds(fe_vals(a), fe_vals(b), fe_vals(c), fe_vals(h), q.t.vals()),
        a.len() <= if q.domain.len() == 0 { 1 } else { q.domain.len() },
        b.len() <= if q.domain.len() == 0 { 1 } else { q.domain.len() },
        h.len() <= if q.domain.len() == 0 { 1 } else { q.domain.len() },
        invertible(tw.gamma.val() as int),
        invertible(tw.delta.val() as int),
    ensures
        scalar_check(
            setup_scalars(r1cs, q, tw, public),
            public_values,
            proof_a_scalar(setup_scalars(r1cs, q, tw, public), a, r),
            proof_b_scalar(setup_scalars(r1cs, q, tw, public), b, s),
            proof_c_scalar(setup_scalars(r1cs, q, tw, public), private_of(public, r1cs.num_vars as int), w, a, b, h, r, s),
        ),
{
    let p = pr();
    let cs = setup_scalars(r1cs, q, tw, public);
    let nv = r1cs.num_vars as int;
    let tau = tw.tau.val() as int;
    let al = tw.alpha.val() as int;
    let be = tw.beta.val() as int;
    let ga = tw.gamma.val() as int;
    let de = tw.delta.val() as int;
    let private = private_of(public, nv);
    let f = weighted_term(r1cs, q, tw, w);
    let gi = field_inv(ga);
    let di = field_inv(de);
    lemma_inverse(ga);
    lemma_inverse(de);
    let at = eval_mod(fe_vals(a), tau);
    let bt = eval_mod(fe_vals(b), tau);
    let ct = eval_mod(fe_vals(c), tau);
    let hv = eval_mod(fe_vals(h), tau);
    let tt = eval_mod(q.t.vals(), tau);

    // a(tau) and b(tau) from the powers of tau
    assert forall|i: int| 0 <= i < cs.taus.len() implies #[trigger] cong(cs.taus[i], xpow(tau, i as nat) * 1) by {
        lemma_cong_mod(xpow(tau, i as nat));
    }
    let am = msc(a, cs.taus);
    let bm = msc(b, cs.taus);
    // the QAP identity at tau
    assert(cong(at * bt - ct, hv * tt));
    if q.domain.len() > 0 {
        lemma_at_point(a, cs.taus, tau, 1);
        lemma_at_point(b, cs.taus, tau, 1);
    } else {
        // with no constraints every combination is zero, and so is every sum over the CRS
        lemma_col_combo_empty(q, r1cs.a@, fe_vals(w), nv, tau);
        lemma_col_combo_empty(q, r1cs.b@, fe_vals(w), nv, tau);
        lemma_col_combo_empty(q, r1cs.c@, fe_vals(w), nv, tau);
        assert(0int % p == 0);
        assert(at == 0 && bt == 0 && ct == 0);
        assert(am == 0 && bm == 0);
        assert(at * 1 == 0 && bt * 1 == 0);
    }
    assert(q.domain.len() == 0 ==> at == 0 && bt == 0 && ct == 0);

    // h(tau) t(tau) / delta
    assert forall|i: int| 0 <= i < cs.hs.len() implies #[trigger] cong(cs.hs[i], xpow(tau, i as nat) * (tt * di)) by {
        let xp = xpow(tau, i as nat);
        let fp = fpow(tau, i as nat);
        lemma_cong_mod(xp);
        lemma_cong_mul(fp, xp, tt, tt);
        lemma_cong_mod(fp * tt);
        lemma_cong_mul((fp * tt) % p, xp * tt, di, di);
        lemma_cong_mod(((fp * tt) % p) * di);
        lemma_mul_is_associative(xp, tt, di);
    }
    let hm = msc(h, cs.hs);
    lemma_mul_is_associative(hv, tt, di);
    if q.domain.len() > 0 {
        lemma_at_point(h, cs.hs, tau, tt * di);
    } else {
        assert(hm == 0);
        assert(at * bt == 0 * 0);
        assert(at * bt - ct == 0);
        lemma_cong_mul(hv * tt, 0, di, di);
        assert(0 * di == 0);
    }

    // the private and public sums
    assert forall|i: int| 0 <= i < private.len() implies
        #[trigger] cong(w[private[i] as int].val() * cs.private_k[i], f(private[i] as int) * di) by {
        let j = private[i] as int;
        let cj = combined_term(r1cs, q, tw, j);
        let wj = w[j].val() as int;
        lemma_cong_mod(cj * di);
        lemma_cong_mul(wj, wj, (cj * di) % p, cj * di);
        lemma_mul_is_associative(wj, cj, di);
    }
    lemma_private_scaled(private, cs.private_k, w, f, di, private.len() as int);
    assert forall|k: int| 0 <= k < public.len() implies
        #[trigger] cong(public_values[k].val() * cs.ic[k], f(public[k] as int) * gi) by {
        let j = public[k] as int;
        let cj = combined_term(r1cs, q, tw, j);
        let wj = w[j].val() as int;
        assert(public_values[k].val() == wj);
        lemma_cong_mod(cj * gi);
        lemma_cong_mul(wj, wj, (cj * gi) % p, cj * gi);
        lemma_mul_is_associative(wj, cj, gi);
    }
    lemma_public_scaled(public_values, cs.ic, public, f, gi, public.len() as int);
    let spub = sum_idx(f, public, public.len() as int);
    let spriv = sum_idx(f, private, private.len() as int);
    let icv = msc(public_values, cs.ic);
    lemma_cong_mod(sum_prod(public_values, cs.ic, public.len() as int));

    // every variable is public or private
    lemma_public_sum(f, public, nv);
    lemma_private_sum(f, public, nv);
    lemma_sum_split(f, public, nv);
    lemma_total(r1cs, q, tw, w, nv);
    let ca = col_combo(q, r1cs.a@, fe_vals(w), nv, tau);
    let cb = col_combo(q, r1cs.b@, fe_vals(w), nv, tau);
    let cc = col_combo(q, r1cs.c@, fe_vals(w), nv, tau);
    assert(at == ca % p && bt == cb % p && ct == cc % p);
    lemma_cong_mod(ca);
    lemma_cong_mod(cb);
    lemma_cong_mod(cc);
    lemma_cong_mul(be, be, ca, at);
    lemma_cong_mul(al, al, cb, bt);
    lemma_cong_add(be * ca, be * at, al * cb, al * bt);
    lemma_cong_add(be * ca + al * cb, be * at + al * bt, cc, ct);
    assert(cong(spub + spriv, be * at + al * bt + ct));

    lemma_groth16_algebra(al, be, ga, gi, de, di, at, bt, ct, hv * tt, spub, spriv, r, s);
    lemma_values_of_proof(cs, private, w, a, b, h, r, s, at, bt, hv * tt, spriv, di);
    let pa = proof_a_scalar(cs, a, r);
    let pb = proof_b_scalar(cs, b, s);
    let pc = proof_c_scalar(cs, private, w, a, b, h, r, s);
    let big_a = al + at + de * r;
    let big_b = be + bt + de * s;
    let big_c = spriv * di + (hv * tt) * di + big_a * s + big_b * r - de * (r * s);
    lemma_cong_mul(pa, big_a, pb, big_b);
    lemma_cong_mul(icv, spub * gi, ga, ga);
    lemma_cong_mul(pc, big_c, de, de);
    lemma_cong_add(al * be, al * be, icv * ga, (spub * gi) * ga);
    lemma_cong_add(al * be + icv * ga, al * be + (spub * gi) * ga, pc * de, big_c * de);
}

/// The values behind the points of a proof, against their unreduced forms:
/// `A = alpha + a(tau) + delta r`, `B = beta + b(tau) + delta s`,
/// `C = spriv / delta + h(tau) t(tau) / delta + s A + r B - delta r s`.
proof fn lemma_values_of_proof(
    cs: CrsScalars,
    private: Seq<usize>,
    w: Seq<Fe>,
    a: Seq<Fe>,
    b: Seq<Fe>,
    h: Seq<Fe>,
    r: int,
    s: int,
    at: int,
    bt: int,
    ht: int,
    spriv: int,
    di: int,
)
    requires
        cong(msc(a, cs.taus), at),
        cong(msc(b, cs.taus), bt),
        cong(msc(h, cs.hs), ht * di),
        private.len() == cs.private_k.len(),
        cong(private_sum_scalar(private, cs.private_k, w, private.len() as int), spriv * di),
    ensures
        cong(proof_a_scalar(cs, a, r), cs.alpha + at + cs.delta * r),
        cong(proof_b_scalar(cs, b, s), cs.beta + bt + cs.delta * s),
        cong(
            proof_c_scalar(cs, private, w, a, b, h, r, s),
            spriv * di + ht * di + (cs.alpha + at + cs.delta * r) * s + (cs.beta + bt + cs.delta * s) * r
                - cs.delta * (r * s),
        ),
{
    let p = pr();
    let am = msc(a, cs.taus);
    let bm = msc(b, cs.taus);
    let hm = msc(h, cs.hs);
    let big_a = cs.alpha + at + cs.delta * r;
    let big_b = cs.beta + bt + cs.delta * s;
    let pa = proof_a_scalar(cs, a, r);
    let pb = proof_b_scalar(cs, b, s);
    // A
    lemma_cong_mod(cs.alpha + am);
    lemma_cong_add(cs.alpha, cs.alpha, am, at);
    lemma_cong_mod(cs.delta * r);
    lemma_cong_add((cs.alpha + am) % p, cs.alpha + at, (cs.delta * r) % p, cs.delta * r);
    lemma_cong_mod((cs.alpha + am) % p + (cs.delta * r) % p);
    // B
    lemma_cong_mod(cs.beta + bm);
    lemma_cong_add(cs.beta, cs.beta, bm, bt);
    lemma_cong_mod(cs.delta * s);
    lemma_cong_add((cs.beta + bm) % p, cs.beta + bt, (cs.delta * s) % p, cs.delta * s);
    lemma_cong_mod((cs.beta + bm) % p + (cs.delta * s) % p);
    // C
    let ps = private_sum_scalar(private, cs.private_k, w, min_len(private.len(), cs.private_k.len())) % p;
    lemma_cong_mod(private_sum_scalar(private, cs.private_k, w, private.len() as int));
    let x1 = (ps + hm) % p;
    lemma_cong_add(ps, spriv * di, hm, ht * di);
    lemma_cong_mod(ps + hm);
    let y1 = spriv * di + ht * di;
    lemma_cong_mul(pa, big_a, s, s);
    lemma_cong_mod(pa * s);
    let x2 = (x1 + (pa * s) % p) % p;
    lemma_cong_add(x1, y1, (pa * s) % p, big_a * s);
    lemma_cong_mod(x1 + (pa * s) % p);
    let y2 = y1 + big_a * s;
    lemma_cong_mul(pb, big_b, r, r);
    lemma_cong_mod(pb * r);
    let x3 = (x2 + (pb * r) % p) % p;
    lemma_cong_add(x2, y2, (pb * r) % p, big_b * r);
    lemma_cong_mod(x2 + (pb * r) % p);
    let y3 = y2 + big_b * r;
    lemma_cong_mod(r * s);
    lemma_cong_mul(cs.delta, cs.delta, (r * s) % p, r * s);
    lemma_cong_mod(cs.delta * ((r * s) % p));
    lemma_cong_sub(x3, y3, (cs.delta * ((r * s) % p)) % p, cs.delta * (r * s));
    lemma_cong_mod(x3 - (cs.delta * ((r * s) % p)) % p);
}

} // verus!
