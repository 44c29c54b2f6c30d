//! Dense polynomials over `Fr`, with coefficients from the constant term up.

use vstd::prelude::*;
use vstd::arithmetic::div_mod::*;
use crate::finite_field::{Fe, fe_vals, lemma_val_lt_modulus};
use crate::poly_math::{
    all_zero, cong, sdeg, xpow, zeros, lemma_cong_add, lemma_cong_mod, lemma_cong_mul, lemma_cong_sub,
    lemma_eval_sub, lemma_peval_append_zeros, lemma_peval_mod, lemma_peval_prepend_zeros, lemma_peval_scale,
    lemma_peval_strip, lemma_peval_update, coef, distinct_points, field_inv, invertible, is_inverse, lagrange_eval, lagrange_sum, lemma_field_inv_unique, lemma_lagrange_nodes, lemma_prod_except_invertible, lemma_invertible_nonzero, eval_mod, lagrange_denom, padd, peval, pmod, pmul, pr, prod_except, pscale,
    pshift, psub, strip, trimmed, lemma_pmul_linear, lemma_pmul_unit, lemma_coef_strip_pmod, lemma_eval_add, lemma_eval_mul, lemma_eval_scale, lemma_peval_single,
    lemma_pmul_len_bound, lemma_pmul_len_last, lemma_prod_except_vanishes, lemma_strip,
};

verus! {

broadcast use lemma_val_lt_modulus;

/// A polynomial over `Fr`; `coeffs[i]` is the coefficient of `x^i`.
#[derive(Clone, Debug)]
pub struct Poly {
    pub coeffs: Vec<Fe>,
}

/// One step of Horner's rule, read modulo the field order.
proof fn lemma_horner_step(e: int, x: int, c: int)
    ensures
        (((e % pr()) * x) % pr() + c) % pr() == (c + x * e) % pr(),
{
    let p = pr();
    lemma_mul_mod_noop_left(e, x, p);
    lemma_add_mod_noop(e * x, c, p);
    lemma_add_mod_noop((e % p) * x % p, c, p);
    lemma_mod_twice((e % p) * x, p);
    assert(e * x == x * e) by (nonlinear_arith);
}

/// The elements at `k` and `l` differ, and so their differences in either
/// order have inverses.
spec fn pair_separated(v: Seq<int>, k: int, l: int) -> bool {
    v[k] != v[l] && invertible(v[k] - v[l]) && invertible(v[l] - v[k])
}

/// Whether the elements of `xs` are pairwise distinct. When they are, every
/// difference of two of them has an inverse (each one is computed), which
/// is what interpolation over them needs.
pub fn distinct_values(xs: &[Fe]) -> (ok: bool)
    ensures
        ok <==> forall|i: int, j: int| 0 <= i < j < xs.len() ==> xs@[i].val() != xs@[j].val(),
        ok ==> distinct_points(fe_vals(xs@)),
{
    let ghost v = fe_vals(xs@);
    let n = xs.len();
    let mut i: usize = 0;
    while i < n
        invariant
            i <= n,
            n == xs.len(),
            v == fe_vals(xs@),
            forall|k: int, l: int| 0 <= k < i && k < l < n ==> #[trigger] pair_separated(v, k, l),
        decreases n - i,
    {
        let mut j: usize = i + 1;
        while j < n
            invariant
                i < n,
                i + 1 <= j <= n,
                n == xs.len(),
                v == fe_vals(xs@),
                forall|k: int, l: int| 0 <= k < i && k < l < n ==> #[trigger] pair_separated(v, k, l),
                forall|l: int| i < l < j ==> #[trigger] pair_separated(v, i as int, l),
            decreases n - j,
        {
            let d = xs[i].sub(&xs[j]);
            let inv = d.inverse();
            let ghost vi = v[i as int];
            let ghost vj = v[j as int];
            proof {
                assert(vi == xs@[i as int].val() && vj == xs@[j as int].val());
                lemma_mod_bound(vi - vj, pr());
                if vi != vj {
                    if vi > vj {
                        lemma_small_mod((vi - vj) as nat, pr() as nat);
                    } else {
                        lemma_mod_add_multiples_vanish(vi - vj, pr());
                        lemma_small_mod((vi - vj + pr()) as nat, pr() as nat);
                    }
                }
            }
            match inv {
                None => {
                    proof {
                        if vi != vj {
                            assert(d.val() != 0);
                        }
                    }
                    return false;
                }
                Some(w) => {
                    proof {
                        let wv = w.val() as int;
                        lemma_cong_mod(vi - vj);
                        lemma_cong_mul(d.val() as int, vi - vj, wv, wv);
                        assert(is_inverse(vi - vj, wv));
                        assert((vj - vi) * (-wv) == (vi - vj) * wv) by (nonlinear_arith);
                        assert(is_inverse(vj - vi, -wv));
                        assert(d.val() != 0);
                        assert(pair_separated(v, i as int, j as int));
                    }
                }
            }
            j += 1;
        }
        i += 1;
    }
    proof {
        assert forall|a: int, b: int| 0 <= a < v.len() && 0 <= b < v.len() && a != b implies #[trigger] invertible(v[a] - v[b]) by {
            if a < b {
                assert(pair_separated(v, a, b));
            } else {
                assert(pair_separated(v, b, a));
            }
        }
        assert forall|a: int, b: int| 0 <= a < b < xs.len() implies xs@[a].val() != xs@[b].val() by {
            assert(pair_separated(v, a, b));
        }
    }
    true
}

/// Whether the first coordinates of `points` are pairwise distinct; when
/// they are, `interpolate` may be called on `points`.
pub fn distinct_xs(points: &[(Fe, Fe)]) -> (ok: bool)
    ensures
        ok <==> forall|i: int, j: int| 0 <= i < j < points.len() ==> points@[i].0.val() != points@[j].0.val(),
        ok ==> distinct_points(point_xs(points@)),
{
    let mut xs: Vec<Fe> = Vec::new();
    let mut k: usize = 0;
    while k < points.len()
        invariant
            k <= points.len(),
            xs@.len() == k,
            forall|m: int| 0 <= m < k ==> #[trigger] xs@[m] == points@[m].0,
        decreases points.len() - k,
    {
        xs.push(points[k].0);
        k += 1;
    }
    let ok = distinct_values(xs.as_slice());
    assert(fe_vals(xs@) =~= point_xs(points@));
    proof {
        if ok {
            assert forall|i: int, j: int| 0 <= i < j < points.len() implies points@[i].0.val() != points@[j].0.val() by {
                assert(xs@[i] == points@[i].0 && xs@[j] == points@[j].0);
                assert(xs@[i].val() != xs@[j].val());
            }
        } else {
            let (i, j) = choose|i: int, j: int| 0 <= i < j < xs.len() && xs@[i].val() == xs@[j].val();
            assert(xs@[i] == points@[i].0 && xs@[j] == points@[j].0);
        }
    }
    ok
}

/// The first coordinates of a list of points.
pub open spec fn point_xs(points: Seq<(Fe, Fe)>) -> Seq<int> {
    Seq::new(points.len(), |k: int| points[k].0.val() as int)
}

/// The second coordinates of a list of points.
pub open spec fn point_ys(points: Seq<(Fe, Fe)>) -> Seq<int> {
    Seq::new(points.len(), |k: int| points[k].1.val() as int)
}

/// Multiplying by an inverse and then by the element itself gives back `y`.
proof fn lemma_inverse_cancel(y: int, w: int, d: int)
    requires
        0 <= y < pr(),
        (d * w) % pr() == 1,
    ensures
        (((y * w) % pr()) * d) % pr() == y,
{
    let p = pr();
    lemma_mul_mod_noop_left(y * w, d, p);
    assert((y * w) * d == y * (d * w)) by (nonlinear_arith);
    lemma_mul_mod_noop_right(y, d * w, p);
    lemma_small_mod(y as nat, p as nat);
}

/// The product of two values reduced modulo the order equals the reduced product.
proof fn lemma_mod_mul_both(a: int, b: int)
    ensures
        ((a % pr()) * (b % pr())) % pr() == (a * b) % pr(),
{
    lemma_mul_mod_noop_general(a, b, pr());
}

/// The monic linear polynomial `x - d`.
pub(crate) fn linear_factor(d: Fe) -> (f: Poly)
    ensures
        f.vals().len() == 2,
        f.vals()[0] == (-(d.val() as int)) % pr(),
        f.vals()[1] == 1,
        forall|t: int| #[trigger] eval_mod(f.vals(), t) == (t - d.val()) % pr(),
{
    let nd = d.neg();
    let one = Fe::one();
    let cs = vec![nd, one];
    let f = Poly::new(cs);
    proof {
        let v = seq![(-(d.val() as int)) % pr(), 1int];
        assert(fe_vals(cs@) =~= v);
        lemma_strip(v);
        assert forall|t: int| #[trigger] eval_mod(f.vals(), t) == (t - d.val()) % pr() by {
            assert(v.drop_first() =~= seq![1int]);
            lemma_peval_single(1, t);
            lemma_add_mod_noop((-(d.val() as int)) % pr(), t, pr());
            lemma_add_mod_noop(-(d.val() as int), t, pr());
            lemma_mod_twice(-(d.val() as int), pr());
            lemma_mod_twice(t, pr());
        }
    }
    f
}

/// Whether some coefficient is nonzero.
fn has_nonzero(v: &Vec<Fe>) -> (b: bool)
    ensures
        b == !all_zero(fe_vals(v@)),
{
    let mut i: usize = 0;
    while i < v.len()
        invariant
            i <= v.len(),
            forall|k: int| 0 <= k < i ==> #[trigger] fe_vals(v@)[k] == 0,
        decreases v.len() - i,
    {
        if !v[i].is_zero() {
            assert(fe_vals(v@)[i as int] == v@[i as int].val());
            return true;
        }
        i += 1;
    }
    false
}

/// A copy of a coefficient vector.
fn copy_coeffs(v: &Vec<Fe>) -> (r: Vec<Fe>)
    ensures
        r@ == v@,
{
    let mut r: Vec<Fe> = Vec::new();
    let mut i: usize = 0;
    while i < v.len()
        invariant
            i <= v.len(),
            r@ == v@.subrange(0, i as int),
        decreases v.len() - i,
    {
        r.push(v[i]);
        i += 1;
    }
    assert(v@.subrange(0, v.len() as int) =~= v@);
    r
}

/// One step of long division keeps `a = q * d + r` modulo the field order:
/// `q` gains `c * x^s` and `r` loses `x^s * c * d`.
proof fn lemma_div_step_identity(a: int, q: int, d: int, r: int, q2: int, r2: int, e: int, c: int, xs: int)
    requires
        cong(a, q * d + r),
        cong(q2, q + c * xs),
        cong(e, xs * c * d),
        cong(r2, r - e),
    ensures
        cong(a, q2 * d + r2),
{
    lemma_cong_mul(q2, q + c * xs, d, d);
    lemma_cong_sub(r, r, e, xs * c * d);
    lemma_cong_add(q2 * d, (q + c * xs) * d, r2, r - xs * c * d);
    assert((q + c * xs) * d + (r - xs * c * d) == q * d + r) by (nonlinear_arith);
}

/// Subtracting `c * x^shift * d` from `rv` and reducing lowers each
/// coefficient by `c` times the matching coefficient of `d`.
proof fn lemma_sub_shifted_coefs(rv: Seq<int>, d: Seq<int>, c: int, shift: nat, sv: Seq<int>, rnew: Seq<int>, k: int)
    requires
        sv == zeros(shift) + pmod(pscale(d, c)),
        rnew == strip(pmod(psub(rv, strip(sv)))),
    ensures
        cong(coef(rnew, k), coef(rv, k) - c * coef(d, k - shift)),
{
    let p = pr();
    let x = psub(rv, strip(sv));
    lemma_strip(pmod(x));
    lemma_strip(sv);
    let dj = coef(d, k - shift);
    let svk = coef(sv, k);
    if shift <= k < shift + d.len() {
        assert(sv[k] == pmod(pscale(d, c))[k - shift]);
        assert(svk == (dj * c) % p);
    } else {
        assert(svk == 0);
        assert(dj == 0);
        assert(dj * c == 0);
        assert(0int % p == 0);
    }
    assert(svk == (dj * c) % p);
    if 0 <= k < x.len() {
        assert(coef(pmod(x), k) == (coef(rv, k) - svk) % p);
    } else {
        assert(coef(rv, k) == 0);
        assert(coef(strip(sv), k) == 0);
        assert(coef(pmod(x), k) == 0);
        assert(0int % p == 0);
        assert(coef(pmod(x), k) == (coef(rv, k) - svk) % p);
    }
    lemma_cong_mod(coef(rv, k) - svk);
    lemma_cong_mod(dj * c);
    lemma_cong_sub(coef(rv, k), coef(rv, k), svk, dj * c);
    assert(dj * c == c * dj) by (nonlinear_arith);
}

/// One step of long division keeps `a = q * d + r` coefficient by
/// coefficient: the quotient gains `c` at `shift` (where it held zero after
/// padding) and the remainder loses `c * x^shift * d`.
proof fn lemma_div_step_coefs(
    a: Seq<int>,
    d: Seq<int>,
    qv: Seq<int>,
    qpad: Seq<int>,
    rv: Seq<int>,
    rnew: Seq<int>,
    c: int,
    shift: nat,
)
    requires
        forall|k: int| #[trigger] cong(coef(a, k), coef(pmul(qv, d), k) + coef(rv, k)),
        forall|i: int| #[trigger] coef(qpad, i) == coef(qv, i),
        shift < qpad.len(),
        qpad[shift as int] == 0,
        forall|k: int| #[trigger] cong(coef(rnew, k), coef(rv, k) - c * coef(d, k - shift)),
    ensures
        forall|k: int| #[trigger] cong(coef(a, k), coef(pmul(qpad.update(shift as int, c), d), k) + coef(rnew, k)),
{
    let e: Seq<int> = seq![];
    let unit = zeros(shift).push(1);
    let qnew = qpad.update(shift as int, c);
    assert forall|i: int| #[trigger] cong(coef(qpad, i), coef(qv, i) + 0 * coef(e, i)) by {
        assert(0 * coef(e, i) == 0);
    }
    lemma_pmul_linear(qv, e, qpad, 0, d);
    assert forall|i: int| #[trigger] cong(coef(qnew, i), coef(qpad, i) + c * coef(unit, i)) by {
        if i == shift {
            assert(coef(unit, i) == 1);
            assert(c * 1 == c);
        } else {
            assert(coef(unit, i) == 0);
            assert(c * 0 == 0);
        }
    }
    lemma_pmul_linear(qpad, unit, qnew, c, d);
    assert forall|k: int| #[trigger] cong(coef(a, k), coef(pmul(qnew, d), k) + coef(rnew, k)) by {
        lemma_pmul_unit(shift, d, k);
        let pv = coef(pmul(qv, d), k);
        let pp = coef(pmul(qpad, d), k);
        let pn = coef(pmul(qnew, d), k);
        let dk = coef(d, k - shift);
        assert(cong(pp, pv + 0 * coef(pmul(e, d), k)));
        assert(0 * coef(pmul(e, d), k) == 0);
        assert(cong(pn, pp + c * dk));
        assert(cong(coef(a, k), pv + coef(rv, k)));
        assert(cong(coef(rnew, k), coef(rv, k) - c * dk));
        lemma_cong_add(pn, pp + c * dk, coef(rnew, k), coef(rv, k) - c * dk);
        assert(pp + c * dk + (coef(rv, k) - c * dk) == pp + coef(rv, k));
        lemma_cong_add(pp, pv, coef(rv, k), coef(rv, k));
    }
}

impl Poly {
    /// The values of the coefficients.
    pub open spec fn vals(&self) -> Seq<int> {
        fe_vals(self.coeffs@)
    }

    /// The polynomial with these coefficients, trailing zeros removed (the
    /// zero polynomial keeps one zero coefficient).
    pub fn new(coeffs: Vec<Fe>) -> (p: Poly)
        ensures
            p.vals() == strip(fe_vals(coeffs@)),
            trimmed(p.vals()),
    {
        let mut p = Poly { coeffs };
        p.trim();
        p
    }

    /// The zero polynomial.
    pub fn zero() -> (p: Poly)
        ensures
            p.vals() == seq![0int],
    {
        Poly::new(Vec::new())
    }

    fn trim(&mut self)
        ensures
            final(self).vals() == strip(old(self).vals()),
            trimmed(final(self).vals()),
    {
        let ghost orig = self.vals();
        loop
            invariant
                strip(self.vals()) == strip(orig),
            ensures
                strip(self.vals()) == strip(orig),
                !(self.coeffs.len() > 1 && self.vals().last() == 0),
            decreases self.coeffs.len(),
        {
            let n: usize = self.coeffs.len();
            if n > 1 && self.coeffs[n - 1].is_zero() {
                let ghost before = self.vals();
                self.coeffs.pop();
                assert(self.vals() =~= before.drop_last());
            } else {
                break;
            }
        }
        if self.coeffs.len() == 0 {
            assert(self.vals() =~= Seq::<int>::empty());
            self.coeffs.push(Fe::zero());
            assert(self.vals() =~= seq![0int]);
        } else {
            proof {
                lemma_strip(self.vals());
            }
        }
    }

    /// The degree: one less than the number of coefficients (zero when there are none).
    pub fn degree(&self) -> (d: usize)
        ensures
            d == if self.coeffs.len() == 0 { 0 } else { self.coeffs.len() - 1 },
    {
        if self.coeffs.len() == 0 { 0 } else { self.coeffs.len() - 1 }
    }

    /// The value of the polynomial at `x`.
    pub fn eval(&self, x: Fe) -> (y: Fe)
        ensures
            y.val() == eval_mod(self.vals(), x.val() as int),
    {
        let n: usize = self.coeffs.len();
        let ghost v = self.vals();
        let mut acc = Fe::zero();
        let mut i: usize = n;
        assert(v.subrange(n as int, n as int) =~= Seq::<int>::empty());
        assert(peval(v.subrange(n as int, n as int), x.val() as int) == 0);
        assert(0int % pr() == 0);
        while i > 0
            invariant
                i <= n,
                n == self.coeffs.len(),
                v == self.vals(),
                acc.val() == eval_mod(v.subrange(i as int, n as int), x.val() as int),
            decreases i,
        {
            i -= 1;
            let ghost prev = peval(v.subrange(i + 1, n as int), x.val() as int);
            acc = acc.mul(&x).add(&self.coeffs[i]);
            proof {
                let s = v.subrange(i as int, n as int);
                assert(s.drop_first() =~= v.subrange(i + 1, n as int));
                lemma_horner_step(prev, x.val() as int, v[i as int]);
            }
        }
        assert(v.subrange(0, n as int) =~= v);
        acc
    }

    /// Every coefficient multiplied by `s`.
    pub fn scale(&self, s: Fe) -> (p: Poly)
        ensures
            p.vals() == strip(pmod(pscale(self.vals(), s.val() as int))),
            forall|x: int| #[trigger] eval_mod(p.vals(), x) == (s.val() * eval_mod(self.vals(), x)) % pr(),
            trimmed(p.vals()),
    {
        let n: usize = self.coeffs.len();
        let mut out: Vec<Fe> = Vec::new();
        let mut i: usize = 0;
        while i < n
            invariant
                i <= n,
                n == self.coeffs.len(),
                out.len() == i,
                forall|k: int| 0 <= k < i ==> #[trigger] out@[k].val() == (self.vals()[k] * s.val()) % pr(),
            decreases n - i,
        {
            out.push(self.coeffs[i].mul(&s));
            i += 1;
        }
        assert(fe_vals(out@) =~= pmod(pscale(self.vals(), s.val() as int)));
        let p = Poly::new(out);
        proof {
            assert forall|x: int| #[trigger] eval_mod(p.vals(), x) == (s.val() * eval_mod(self.vals(), x)) % pr() by {
                lemma_eval_scale(self.vals(), s.val() as int, x);
            }
        }
        p
    }

    /// Coefficient `i`, zero beyond the end.
    fn coeff_or_zero(&self, i: usize) -> (c: Fe)
        ensures
            c.val() == coef(self.vals(), i as int),
    {
        if i < self.coeffs.len() { self.coeffs[i] } else { Fe::zero() }
    }

    /// The sum of two polynomials.
    pub fn add(&self, rhs: &Poly) -> (p: Poly)
        ensures
            p.vals() == strip(pmod(padd(self.vals(), rhs.vals()))),
            forall|x: int| #[trigger] eval_mod(p.vals(), x) == (eval_mod(self.vals(), x) + eval_mod(rhs.vals(), x)) % pr(),
            trimmed(p.vals()),
    {
        let n: usize = if self.coeffs.len() >= rhs.coeffs.len() { self.coeffs.len() } else { rhs.coeffs.len() };
        let ghost target = padd(self.vals(), rhs.vals());
        let mut out: Vec<Fe> = Vec::new();
        let mut i: usize = 0;
        while i < n
            invariant
                i <= n,
                n == target.len(),
                target == padd(self.vals(), rhs.vals()),
                out.len() == i,
                forall|k: int| 0 <= k < i ==> #[trigger] out@[k].val() == target[k] % pr(),
            decreases n - i,
        {
            let a = self.coeff_or_zero(i);
            let b = rhs.coeff_or_zero(i);
            out.push(a.add(&b));
            i += 1;
        }
        assert(fe_vals(out@) =~= pmod(target));
        let p = Poly::new(out);
        proof {
            assert forall|x: int| #[trigger] eval_mod(p.vals(), x) == (eval_mod(self.vals(), x) + eval_mod(rhs.vals(), x)) % pr() by {
                lemma_eval_add(self.vals(), rhs.vals(), x);
            }
        }
        p
    }

    /// The difference of two polynomials.
    pub fn sub(&self, rhs: &Poly) -> (p: Poly)
        ensures
            p.vals() == strip(pmod(psub(self.vals(), rhs.vals()))),
            forall|x: int| #[trigger] eval_mod(p.vals(), x) == (eval_mod(self.vals(), x) - eval_mod(rhs.vals(), x)) % pr(),
            trimmed(p.vals()),
    {
        let n: usize = if self.coeffs.len() >= rhs.coeffs.len() { self.coeffs.len() } else { rhs.coeffs.len() };
        let ghost target = psub(self.vals(), rhs.vals());
        let mut out: Vec<Fe> = Vec::new();
        let mut i: usize = 0;
        while i < n
            invariant
                i <= n,
                n == target.len(),
                target == psub(self.vals(), rhs.vals()),
                out.len() == i,
                forall|k: int| 0 <= k < i ==> #[trigger] out@[k].val() == target[k] % pr(),
            decreases n - i,
        {
            let a = self.coeff_or_zero(i);
            let b = rhs.coeff_or_zero(i);
            out.push(a.sub(&b));
            i += 1;
        }
        assert(fe_vals(out@) =~= pmod(target));
        let p = Poly::new(out);
        proof {
            assert forall|x: int| #[trigger] eval_mod(p.vals(), x) == (eval_mod(self.vals(), x) - eval_mod(rhs.vals(), x)) % pr() by {
                lemma_eval_sub(self.vals(), rhs.vals(), x);
            }
        }
        p
    }

    /// The product of two polynomials. At least one of them must have a
    /// coefficient.
    pub fn mul(&self, rhs: &Poly) -> (p: Poly)
        requires
            self.coeffs.len() + rhs.coeffs.len() >= 1,
            self.coeffs.len() + rhs.coeffs.len() <= usize::MAX + 1,
        ensures
            p.vals() == strip(pmod(pmul(self.vals(), rhs.vals()))),
            forall|x: int| #[trigger] eval_mod(p.vals(), x) == (eval_mod(self.vals(), x) * eval_mod(rhs.vals(), x)) % pr(),
            trimmed(self.vals()) && trimmed(rhs.vals()) && self.vals().last() != 0 && rhs.vals().last() != 0
                && invertible(self.vals().last()) ==> p.coeffs.len() == self.coeffs.len() + rhs.coeffs.len() - 1,
            trimmed(p.vals()),
    {
        let n: usize = self.coeffs.len();
        let m: usize = rhs.coeffs.len();
        let ghost a = self.vals();
        let ghost b = rhs.vals();
        let mut acc: Vec<Fe> = Vec::new();
        let mut i: usize = n;
        assert(a.subrange(n as int, n as int) =~= Seq::<int>::empty());
        assert(fe_vals(acc@) =~= pmod(pmul(a.subrange(n as int, n as int), b)));
        while i > 0
            invariant
                i <= n,
                n == self.coeffs.len(),
                m == rhs.coeffs.len(),
                n + m <= usize::MAX + 1,
                a == self.vals(),
                b == rhs.vals(),
                acc.len() <= if i == n { 0 } else { (n - i) + m - 1 },
                fe_vals(acc@) == pmod(pmul(a.subrange(i as int, n as int), b)),
            decreases i,
        {
            i -= 1;
            let c = self.coeffs[i];
            let ghost prev = pmul(a.subrange(i + 1, n as int), b);
            let ghost target = padd(pscale(b, a[i as int]), pshift(prev));
            proof {
                let s = a.subrange(i as int, n as int);
                assert(s.drop_first() =~= a.subrange(i + 1, n as int));
                assert(pmul(s, b) == target);
                assert(fe_vals(acc@).len() == acc.len());
                assert(prev.len() == acc.len());
                lemma_pmul_len_bound(s, b);
            }
            let len: usize = if acc.len() == 0 {
                m
            } else if acc.len() + 1 >= m {
                acc.len() + 1
            } else {
                m
            };
            let mut next: Vec<Fe> = Vec::new();
            let mut k: usize = 0;
            while k < len
                invariant
                    k <= len,
                    len == target.len(),
                    m == rhs.coeffs.len(),
                    b == rhs.vals(),
                    prev.len() == acc.len(),
                    fe_vals(acc@) == pmod(prev),
                    target == padd(pscale(b, c.val() as int), pshift(prev)),
                    next.len() == k,
                    forall|j: int| 0 <= j < k ==> #[trigger] next@[j].val() == target[j] % pr(),
                decreases len - k,
            {
                let t = if k < m { rhs.coeffs[k].mul(&c) } else { Fe::zero() };
                let u = if k >= 1 && k - 1 < acc.len() { acc[k - 1] } else { Fe::zero() };
                proof {
                    let p = pr();
                    assert(coef(pshift(prev), k as int) == if k >= 1 && k - 1 < acc.len() { prev[k - 1] } else { 0 });
                    if k >= 1 && k - 1 < acc.len() {
                        assert(fe_vals(acc@)[k - 1] == acc@[k - 1].val());
                        assert(pmod(prev)[k - 1] == prev[k - 1] % p);
                        assert(u.val() == prev[k - 1] % p);
                    }
                    lemma_add_mod_noop(coef(pscale(b, c.val() as int), k as int), coef(pshift(prev), k as int), p);
                    lemma_mod_twice(coef(pshift(prev), k as int), p);
                    lemma_mod_twice(coef(pscale(b, c.val() as int), k as int), p);
                }
                next.push(t.add(&u));
                k += 1;
            }
            assert(fe_vals(next@) =~= pmod(target));
            acc = next;
        }
        assert(a.subrange(0, n as int) =~= a);
        let p = Poly::new(acc);
        proof {
            assert forall|x: int| #[trigger] eval_mod(p.vals(), x) == (eval_mod(self.vals(), x) * eval_mod(rhs.vals(), x)) % pr() by {
                lemma_eval_mul(self.vals(), rhs.vals(), x);
            }
            if trimmed(self.vals()) && trimmed(rhs.vals()) && self.vals().last() != 0 && rhs.vals().last() != 0
                && invertible(self.vals().last()) {
                lemma_mul_degree(self.vals(), rhs.vals());
            }
        }
        p
    }

    /// The Lagrange interpolation polynomial through `points`: its value at
    /// every `x` is given by the Lagrange formula, so it takes the value
    /// `points[k].1` at `points[k].0` for every `k`; it has at most as many
    /// coefficients as there are points (at least one).
    pub fn interpolate(points: &[(Fe, Fe)]) -> (p: Poly)
        requires
            distinct_points(point_xs(points@)),
            points.len() < usize::MAX,
        ensures
            trimmed(p.vals()),
            p.coeffs.len() <= if points.len() == 0 { 1 } else { points.len() },
            forall|x: int| #[trigger] eval_mod(p.vals(), x) == lagrange_eval(point_xs(points@), point_ys(points@), x),
            forall|k: int| 0 <= k < points.len() ==>
                #[trigger] eval_mod(p.vals(), point_xs(points@)[k]) == point_ys(points@)[k],
    {
        let n: usize = points.len();
        let ghost xs = point_xs(points@);
        let ghost ys = point_ys(points@);
        let mut result = Poly::zero();
        let mut i: usize = 0;
        proof {
            assert forall|x: int| #[trigger] eval_mod(result.vals(), x) == lagrange_sum(xs, ys, 0, x) % pr() by {
                lemma_peval_single(0, x);
                assert(0int % pr() == 0);
            }
        }
        while i < n
            invariant
                i <= n,
                n == points.len(),
                n < usize::MAX,
                xs == point_xs(points@),
                ys == point_ys(points@),
                distinct_points(xs),
                trimmed(result.vals()),
                result.coeffs.len() <= if n == 0 { 1 } else { n },
                forall|x: int| #[trigger] eval_mod(result.vals(), x) == lagrange_sum(xs, ys, i as int, x) % pr(),
            decreases n - i,
        {
            let xi = points[i].0;
            let yi = points[i].1;
            let one_vec = vec![Fe::one()];
            proof {
                assert(fe_vals(one_vec@) =~= seq![1int]);
                lemma_strip(seq![1int]);
            }
            let mut basis = Poly::new(one_vec);
            let mut denom = Fe::one();
            proof {
                assert forall|x: int| #[trigger] eval_mod(basis.vals(), x) == prod_except(xs, i as int, 0, x) % pr() by {
                    lemma_peval_single(1, x);
                    lemma_small_mod(1nat, pr() as nat);
                }
                lemma_small_mod(1nat, pr() as nat);
            }
            let mut j: usize = 0;
            while j < n
                invariant
                    j <= n,
                    i < n,
                    n == points.len(),
                    xs == point_xs(points@),
                    xi.val() == xs[i as int],
                    trimmed(basis.vals()),
                    n < usize::MAX,
                    basis.coeffs.len() <= if i < j { j as int } else { j + 1 },
                    forall|x: int| #[trigger] eval_mod(basis.vals(), x) == prod_except(xs, i as int, j as int, x) % pr(),
                    denom.val() == prod_except(xs, i as int, j as int, xs[i as int]) % pr(),
                decreases n - j,
            {
                if i != j {
                    let xj = points[j].0;
                    let factor = linear_factor(xj);
                    let ghost old_basis = basis.vals();
                    proof {
                        lemma_pmul_len_last(old_basis, factor.vals());
                        lemma_strip(pmod(pmul(old_basis, factor.vals())));
                    }
                    basis = basis.mul(&factor);
                    let diff = xi.sub(&xj);
                    denom = denom.mul(&diff);
                    proof {
                        assert forall|x: int| #[trigger] eval_mod(basis.vals(), x) == prod_except(xs, i as int, j + 1, x) % pr() by {
                            lemma_eval_mul(old_basis, factor.vals(), x);
                            lemma_mod_mul_both(prod_except(xs, i as int, j as int, x), x - xs[j as int]);
                        }
                        lemma_mod_mul_both(prod_except(xs, i as int, j as int, xs[i as int]), xs[i as int] - xs[j as int]);
                    }
                }
                j += 1;
            }
            proof {
                lemma_prod_except_invertible(xs, i as int, n as int);
                lemma_invertible_nonzero(lagrange_denom(xs, i as int));
            }
            let inv = denom.inverse().unwrap();
            let sc = yi.mul(&inv);
            let scaled = basis.scale(sc);
            let ghost old_result = result.vals();
            proof {
                lemma_strip(pmod(pscale(basis.vals(), sc.val() as int)));
                lemma_strip(pmod(padd(old_result, scaled.vals())));
                // the inverse computed is the field inverse of the denominator
                let d = lagrange_denom(xs, i as int);
                lemma_cong_mod(d);
                lemma_cong_mul(denom.val() as int, d, inv.val() as int, inv.val() as int);
                lemma_field_inv_unique(d, inv.val() as int);
            }
            result = result.add(&scaled);
            proof {
                assert forall|x: int| #[trigger] eval_mod(result.vals(), x) == lagrange_sum(xs, ys, i + 1, x) % pr() by {
                    let pe = prod_except(xs, i as int, n as int, x);
                    let fi = field_inv(lagrange_denom(xs, i as int));
                    lemma_eval_add(old_result, scaled.vals(), x);
                    lemma_eval_scale(basis.vals(), sc.val() as int, x);
                    let ls = lagrange_sum(xs, ys, i as int, x);
                    lemma_cong_mod(ls);
                    lemma_cong_mod(pe);
                    lemma_cong_mod((yi.val() * inv.val()) as int);
                    lemma_cong_mul(sc.val() as int, (yi.val() * inv.val()) as int, eval_mod(basis.vals(), x), pe);
                    lemma_cong_mod(sc.val() * eval_mod(basis.vals(), x));
                    assert(yi.val() * inv.val() * pe == ys[i as int] * fi * pe);
                    lemma_cong_add(eval_mod(old_result, x), ls, eval_mod(scaled.vals(), x), ys[i as int] * fi * pe);
                    lemma_cong_mod(eval_mod(old_result, x) + eval_mod(scaled.vals(), x));
                    lemma_small_mod(eval_mod(result.vals(), x) as nat, pr() as nat);
                }
            }
            i += 1;
        }
        proof {
            assert forall|k: int| 0 <= k < n implies #[trigger] eval_mod(result.vals(), xs[k]) == ys[k] by {
                lemma_lagrange_nodes(xs, ys, k);
            }
        }
        result
    }

    /// Long division: the quotient `q` and remainder `r` with
    /// `self = q * divisor + r`, where `r` is zero or of lower degree than
    /// the divisor, both as functions on the field and coefficient by
    /// coefficient. The remainder comes back trimmed, except when there is
    /// nothing to divide, where it is `self` as it was. The divisor needs a
    /// coefficient, and its leading coefficient must be invertible unless
    /// there is nothing to divide.
    pub fn div_rem(&self, divisor: &Poly) -> (res: (Poly, Poly))
        requires
            divisor.coeffs.len() > 0,
            divisor.vals().last() != 0 || all_zero(self.vals()) || sdeg(self.vals()) < sdeg(divisor.vals()),
        ensures
            trimmed(res.0.vals()),
            res.0.coeffs.len() <= if self.coeffs.len() > sdeg(divisor.vals()) {
                self.coeffs.len() - sdeg(divisor.vals())
            } else {
                1
            },
            all_zero(res.1.vals()) || sdeg(res.1.vals()) < sdeg(divisor.vals()),
            trimmed(res.1.vals()) || res.1.coeffs@ == self.coeffs@,
            trimmed(self.vals()) ==> trimmed(res.1.vals()),
            forall|k: int| #[trigger] cong(coef(self.vals(), k), coef(pmul(res.0.vals(), divisor.vals()), k) + coef(res.1.vals(), k)),
            forall|x: int| #[trigger] eval_mod(self.vals(), x)
                == (eval_mod(res.0.vals(), x) * eval_mod(divisor.vals(), x) + eval_mod(res.1.vals(), x)) % pr(),
    {
        let ghost a = self.vals();
        let ghost d = divisor.vals();
        let mut remainder = Poly { coeffs: copy_coeffs(&self.coeffs) };
        let div_deg = divisor.degree();
        let div_lead = divisor.coeffs[divisor.coeffs.len() - 1];
        let mut quotient_coeffs: Vec<Fe> = vec![Fe::zero()];
        proof {
            assert(fe_vals(quotient_coeffs@) =~= seq![0int]);
            assert forall|x: int| #[trigger] eval_mod(a, x)
                == (eval_mod(fe_vals(quotient_coeffs@), x) * eval_mod(d, x) + eval_mod(remainder.vals(), x)) % pr() by {
                lemma_peval_single(0, x);
                assert(0int % pr() == 0);
                assert(0 * eval_mod(d, x) == 0);
                assert(remainder.vals() =~= a);
                lemma_mod_twice(peval(a, x), pr());
            }
            let e: Seq<int> = seq![];
            assert forall|i: int| #[trigger] cong(coef(seq![0int], i), coef(e, i) + 0 * coef(e, i)) by {
                assert(0 * coef(e, i) == 0);
            }
            lemma_pmul_linear(e, e, seq![0int], 0, d);
            assert forall|k: int| #[trigger] cong(coef(a, k), coef(pmul(fe_vals(quotient_coeffs@), d), k) + coef(remainder.vals(), k)) by {
                assert(cong(coef(pmul(seq![0int], d), k), coef(pmul(e, d), k) + 0 * coef(pmul(e, d), k)));
                assert(0 * coef(pmul(e, d), k) == 0);
                assert(pmul(e, d).len() == 0);
                lemma_cong_add(coef(pmul(seq![0int], d), k), 0, coef(a, k), coef(a, k));
            }
        }
        while has_nonzero(&remainder.coeffs) && remainder.degree() >= div_deg
            invariant
                d == divisor.vals(),
                a == self.vals(),
                d.len() > 0,
                div_deg == sdeg(d),
                div_lead.val() == d.last(),
                div_lead.val() != 0 || !(!all_zero(remainder.vals()) && sdeg(remainder.vals()) >= div_deg),
                quotient_coeffs.len() >= 1,
                remainder.coeffs.len() <= a.len(),
                trimmed(remainder.vals()) || remainder.coeffs@ == self.coeffs@,
                forall|k: int| #[trigger] cong(coef(a, k), coef(pmul(fe_vals(quotient_coeffs@), d), k) + coef(remainder.vals(), k)),
                quotient_coeffs.len() <= if a.len() > div_deg { a.len() - div_deg } else { 1 },
                !all_zero(remainder.vals()) ==> forall|k: int|
                    0 <= k < quotient_coeffs.len() && k + div_deg <= sdeg(remainder.vals()) ==>
                    #[trigger] fe_vals(quotient_coeffs@)[k] == 0,
                forall|x: int| #[trigger] eval_mod(a, x)
                    == (eval_mod(fe_vals(quotient_coeffs@), x) * eval_mod(d, x) + eval_mod(remainder.vals(), x)) % pr(),
            decreases remainder.coeffs.len() + if all_zero(remainder.vals()) { 0int } else { 1int },
        {
            let ghost rv = remainder.vals();
            let ghost qv = fe_vals(quotient_coeffs@);
            let rlen: usize = remainder.coeffs.len();
            let lead = remainder.coeffs[rlen - 1];
            let inv = div_lead.inverse().unwrap();
            let coeff = lead.mul(&inv);
            let shift: usize = remainder.degree() - div_deg;
            while quotient_coeffs.len() < shift + 1
                invariant
                    shift < rlen,
                    quotient_coeffs.len() >= qv.len(),
                    quotient_coeffs.len() <= if qv.len() > shift + 1 { qv.len() as int } else { shift + 1 },
                    fe_vals(quotient_coeffs@) == qv + zeros((quotient_coeffs.len() - qv.len()) as nat),
                decreases shift + 1 - quotient_coeffs.len(),
            {
                let ghost before = fe_vals(quotient_coeffs@);
                quotient_coeffs.push(Fe::zero());
                assert(fe_vals(quotient_coeffs@) =~= before.push(0));
                assert(fe_vals(quotient_coeffs@) =~= qv + zeros((quotient_coeffs.len() - qv.len()) as nat));
            }
            let ghost qpad = fe_vals(quotient_coeffs@);
            quotient_coeffs.set(shift, coeff);
            let mut sub_coeffs: Vec<Fe> = Vec::new();
            let mut z: usize = 0;
            while z < shift
                invariant
                    z <= shift,
                    fe_vals(sub_coeffs@) == zeros(z as nat),
                decreases shift - z,
            {
                let ghost before = fe_vals(sub_coeffs@);
                sub_coeffs.push(Fe::zero());
                assert(fe_vals(sub_coeffs@) =~= before.push(0));
                z += 1;
                assert(fe_vals(sub_coeffs@) =~= zeros(z as nat));
            }
            assert(fe_vals(sub_coeffs@) =~= zeros(shift as nat) + pmod(pscale(d, coeff.val() as int)).subrange(0, 0));
            let mut j: usize = 0;
            while j < divisor.coeffs.len()
                invariant
                    j <= divisor.coeffs.len(),
                    d == divisor.vals(),
                    fe_vals(sub_coeffs@) == zeros(shift as nat) + pmod(pscale(d, coeff.val() as int)).subrange(0, j as int),
                decreases divisor.coeffs.len() - j,
            {
                let ghost before = fe_vals(sub_coeffs@);
                sub_coeffs.push(divisor.coeffs[j].mul(&coeff));
                assert(fe_vals(sub_coeffs@) =~= before.push(pmod(pscale(d, coeff.val() as int))[j as int]));
                j += 1;
                assert(fe_vals(sub_coeffs@) =~= zeros(shift as nat) + pmod(pscale(d, coeff.val() as int)).subrange(0, j as int));
            }
            let ghost sv = fe_vals(sub_coeffs@);
            proof {
                assert(pmod(pscale(d, coeff.val() as int)).subrange(0, d.len() as int) =~= pmod(pscale(d, coeff.val() as int)));
            }
            let subp = Poly::new(sub_coeffs);
            remainder = remainder.sub(&subp);
            proof {
                let c = coeff.val() as int;
                let p = pr();
                let dd = div_deg as int;
                let top = rlen - 1;
                // the top coefficient cancels
                lemma_inverse_cancel(lead.val() as int, inv.val() as int, div_lead.val() as int);
                assert(coef(sv, top) == (d[dd] * c) % p);
                assert(d[dd] * c == c * d[dd]) by (nonlinear_arith);
                lemma_strip(sv);
                lemma_strip(pmod(psub(rv, strip(sv))));
                let pre = pmod(psub(rv, strip(sv)));
                assert(pre.len() == rlen);
                assert(pre[top] == 0);
                if rlen == 1 {
                    assert(remainder.vals() =~= seq![0int]);
                    assert(all_zero(remainder.vals()));
                } else {
                    assert(remainder.vals().len() < rlen);
                }
                assert(quotient_coeffs.len() == qpad.len());
                assert forall|k: int|
                    0 <= k < quotient_coeffs.len() && k + div_deg <= sdeg(remainder.vals()) && !all_zero(remainder.vals())
                    implies #[trigger] fe_vals(quotient_coeffs@)[k] == 0 by {
                    assert(k < shift);
                    assert(fe_vals(quotient_coeffs@)[k] == qpad[k]);
                    if k < qv.len() {
                        assert(qpad[k] == qv[k]);
                    }
                }
                // the quotient gains c * x^shift
                assert forall|x: int| #[trigger] eval_mod(a, x)
                    == (eval_mod(fe_vals(quotient_coeffs@), x) * eval_mod(d, x) + eval_mod(remainder.vals(), x)) % pr() by {
                    let xs = xpow(x, shift as nat);
                    lemma_peval_append_zeros(qv, (qpad.len() - qv.len()) as nat, x);
                    assert(qpad[shift as int] == 0);
                    assert(fe_vals(quotient_coeffs@) =~= qpad.update(shift as int, c));
                    lemma_peval_update(qpad, shift as int, c, x);
                    let q2 = eval_mod(fe_vals(quotient_coeffs@), x);
                    lemma_cong_mod(peval(qv, x) + c * xs);
                    lemma_cong_mod(peval(qv, x));
                    lemma_cong_add(peval(qv, x), peval(qv, x) % p, c * xs, c * xs);
                    // the subtracted polynomial is x^shift * c * d
                    lemma_peval_strip(sv, x);
                    lemma_peval_prepend_zeros(shift as nat, pmod(pscale(d, c)), x);
                    lemma_peval_mod(pscale(d, c), x);
                    lemma_peval_scale(d, c, x);
                    let t = peval(pmod(pscale(d, c)), x);
                    let dv = peval(d, x);
                    let e = eval_mod(subp.vals(), x);
                    lemma_cong_mod(dv);
                    lemma_cong_mul(c, c, dv, dv % p);
                    lemma_cong_mul(xs, xs, t, c * (dv % p));
                    lemma_cong_mod(xs * t);
                    assert(xs * (c * (dv % p)) == xs * c * (dv % p)) by (nonlinear_arith);
                    lemma_eval_sub(rv, subp.vals(), x);
                    lemma_cong_mod(eval_mod(rv, x) - e);
                    let qold = eval_mod(qv, x);
                    let dm = eval_mod(d, x);
                    lemma_cong_mod(qold * dm + eval_mod(rv, x));
                    lemma_div_step_identity(eval_mod(a, x), qold, dm, eval_mod(rv, x), q2, eval_mod(remainder.vals(), x), e, c, xs);
                    lemma_cong_mod(q2 * dm + eval_mod(remainder.vals(), x));
                    lemma_small_mod(eval_mod(a, x) as nat, p as nat);
                }
                // and coefficient by coefficient
                assert(fe_vals(quotient_coeffs@) =~= qpad.update(shift as int, c));
                assert forall|i: int| #[trigger] coef(qpad, i) == coef(qv, i) by {
                    if 0 <= i < qpad.len() && i >= qv.len() {
                        assert(qpad[i] == 0);
                    }
                }
                assert forall|k: int| #[trigger] cong(coef(remainder.vals(), k), coef(rv, k) - c * coef(d, k - shift)) by {
                    lemma_sub_shifted_coefs(rv, d, c, shift as nat, sv, remainder.vals(), k);
                }
                lemma_div_step_coefs(a, d, qv, qpad, rv, remainder.vals(), c, shift as nat);
            }
        }
        proof {
            lemma_strip(fe_vals(quotient_coeffs@));
        }
        let ghost qfinal = fe_vals(quotient_coeffs@);
        let q = Poly::new(quotient_coeffs);
        proof {
            let e: Seq<int> = seq![];
            assert forall|i: int| #[trigger] cong(coef(q.vals(), i), coef(qfinal, i) + 0 * coef(e, i)) by {
                assert(0 * coef(e, i) == 0);
            }
            lemma_pmul_linear(qfinal, e, q.vals(), 0, d);
            assert forall|k: int| #[trigger] cong(coef(self.vals(), k), coef(pmul(q.vals(), d), k) + coef(remainder.vals(), k)) by {
                assert(cong(coef(q.vals(), k), coef(qfinal, k) + 0 * coef(e, k)));
                assert(cong(coef(pmul(q.vals(), d), k), coef(pmul(qfinal, d), k) + 0 * coef(pmul(e, d), k)));
                assert(0 * coef(pmul(e, d), k) == 0);
                assert(cong(coef(a, k), coef(pmul(qfinal, d), k) + coef(remainder.vals(), k)));
                lemma_cong_add(coef(pmul(q.vals(), d), k), coef(pmul(qfinal, d), k), coef(remainder.vals(), k), coef(remainder.vals(), k));
            }
        }
        proof {
            assert forall|x: int| #[trigger] eval_mod(self.vals(), x)
                == (eval_mod(q.vals(), x) * eval_mod(divisor.vals(), x) + eval_mod(remainder.vals(), x)) % pr() by {
                lemma_peval_strip(fe_vals(quotient_coeffs@), x);
            }
        }
        (q, remainder)
    }
}

/// The coefficients of a reduced polynomial lie in `0..r`.
pub open spec fn reduced(s: Seq<int>) -> bool {
    forall|i: int| 0 <= i < s.len() ==> 0 <= #[trigger] s[i] < pr()
}

/// Two trimmed coefficient sequences with the same coefficients are equal.
proof fn lemma_trimmed_coef_eq(x: Seq<int>, y: Seq<int>)
    requires
        trimmed(x),
        trimmed(y),
        forall|k: int| #[trigger] coef(x, k) == coef(y, k),
    ensures
        x == y,
{
    if x.len() > y.len() {
        assert(coef(x, x.len() - 1) == coef(y, x.len() - 1));
    }
    if y.len() > x.len() {
        assert(coef(x, y.len() - 1) == coef(y, y.len() - 1));
    }
    assert forall|k: int| 0 <= k < x.len() implies x[k] == y[k] by {
        assert(coef(x, k) == coef(y, k));
    }
    assert(x =~= y);
}

/// A polynomial minus itself is the zero polynomial `[0]`, as `Poly::sub`
/// returns it.
pub proof fn lemma_sub_self(v: Seq<int>)
    ensures
        strip(pmod(psub(v, v))) == seq![0int],
{
    let z = strip(pmod(psub(v, v)));
    lemma_strip(pmod(psub(v, v)));
    assert forall|k: int| #[trigger] coef(z, k) == coef(seq![0int], k) by {
        lemma_coef_strip_pmod(psub(v, v), k);
        assert(0int % pr() == 0);
    }
    lemma_trimmed_coef_eq(z, seq![0int]);
}

/// Subtracting a reduced `q` from a trimmed, reduced `v` and adding `q` back,
/// as `Poly::sub` and `Poly::add` compute, gives `v` again.
pub proof fn lemma_sub_then_add(v: Seq<int>, q: Seq<int>)
    requires
        trimmed(v),
        reduced(v),
        reduced(q),
    ensures
        strip(pmod(padd(strip(pmod(psub(v, q))), q))) == v,
{
    let d = strip(pmod(psub(v, q)));
    let r = strip(pmod(padd(d, q)));
    lemma_strip(pmod(padd(d, q)));
    assert forall|k: int| #[trigger] coef(r, k) == coef(v, k) by {
        lemma_coef_strip_pmod(padd(d, q), k);
        lemma_coef_strip_pmod(psub(v, q), k);
        let vk = coef(v, k);
        let qk = coef(q, k);
        assert(coef(padd(d, q), k) == coef(d, k) + qk);
        lemma_add_mod_noop(vk - qk, qk, pr());
        lemma_mod_twice(qk, pr());
        if 0 <= k < v.len() {
            lemma_small_mod(vk as nat, pr() as nat);
        } else {
            assert(vk == 0);
        }
        if 0 <= k < q.len() {
            lemma_small_mod(qk as nat, pr() as nat);
        }
        assert((vk - qk) + qk == vk);
    }
    lemma_trimmed_coef_eq(r, v);
}

/// Degrees add under multiplication: for trimmed, reduced, nonzero `a` and
/// `b` whose leading coefficient of `a` is invertible (in `Fr`, every
/// nonzero element is), the product that `Poly::mul` returns has
/// `a.len() + b.len() - 1` coefficients, led by the product of the leading ones.
pub proof fn lemma_mul_degree(a: Seq<int>, b: Seq<int>)
    requires
        trimmed(a),
        trimmed(b),
        reduced(a),
        reduced(b),
        a.last() != 0,
        b.last() != 0,
        invertible(a.last()),
    ensures
        strip(pmod(pmul(a, b))).len() == a.len() + b.len() - 1,
        strip(pmod(pmul(a, b))).last() == (a.last() * b.last()) % pr(),
{
    let p = pr();
    lemma_pmul_len_last(a, b);
    let m = pmod(pmul(a, b));
    let al = a.last();
    let bl = b.last();
    let w = choose|w: int| #[trigger] is_inverse(al, w);
    assert(m.last() == (al * bl) % p);
    if (al * bl) % p == 0 {
        // then b's leading coefficient would be zero: bl = (al * w) * bl = w * (al * bl)
        lemma_cong_mul(al * w, 1, bl, bl);
        assert(cong(al * bl, 0));
        lemma_cong_mul(w, w, al * bl, 0);
        assert((al * w) * bl == w * (al * bl)) by (nonlinear_arith);
        assert(1 * bl == bl && w * 0 == 0);
        lemma_small_mod(bl as nat, p as nat);
        assert(0int % p == 0);
    }
    assert(trimmed(m));
    lemma_strip(m);
}

} // verus!
