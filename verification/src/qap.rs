//! The Quadratic Arithmetic Program of an R1CS over a domain of evaluation
//! points: one interpolated polynomial per witness variable and matrix, and
//! the vanishing polynomial `t` of the domain.

use vstd::prelude::*;
use vstd::arithmetic::div_mod::*;
use crate::finite_field::{Fe, fe_vals, i64_val, lemma_val_lt_modulus};
use crate::poly_math::{
    all_zero, cong, distinct_points, lagrange_eval, eval_mod, padd, pmod, pmul, pr, prod_except, pscale, psub, sdeg, strip,
    trimmed, lemma_cong_add, lemma_cong_mod, lemma_cong_mul, lemma_cong_sub, lemma_eval_add, lemma_eval_mul,
    lemma_eval_scale, lemma_eval_sub, lemma_peval_single, lemma_pmul_len_bound, lemma_pmul_len_last, lemma_prod_except_vanishes,
    lemma_roots_force_zero, lemma_strip, lemma_all_zero_evals_zero, coef, divides, is_quotient, invertible, is_inverse, lemma_pmul_linear, lemma_peval_cong, lemma_peval_mul, lemma_peval_sub, peval, lemma_coef_strip_pmod, lemma_coef_psub,
};
use crate::polynomial::{Poly, point_xs, point_ys, linear_factor};
use crate::r1cs::{R1cs, dot_upto, row_dot};

verus! {

broadcast use lemma_val_lt_modulus;

/// The domain points and the vanishing polynomial `t = prod (x - d)` over them.
pub struct Qap {
    pub domain: Vec<Fe>,
    pub t: Poly,
}

/// `sum_{j < k} w[j] * basis[j](x)`, each value taken in the field.
pub open spec fn combo_eval(basis: Seq<Poly>, w: Seq<int>, k: int, x: int) -> int
    decreases k,
{
    if k <= 0 { 0 } else { combo_eval(basis, w, k - 1, x) + w[k - 1] * eval_mod(basis[k - 1].vals(), x) }
}

/// Column `j` of the first `n` rows of a matrix, as field values.
pub open spec fn col_vals(m: Seq<Vec<i64>>, j: int, n: int) -> Seq<int> {
    Seq::new(n as nat, |i: int| i64_val(m[i]@[j]) as int)
}

/// `sum_{j < k} w[j] * col_j(x)`, where `col_j` is the polynomial through
/// column `j` of `m` over the domain: the value at `x` of the combination
/// that `build_abc` makes.
pub open spec fn col_combo(q: &Qap, m: Seq<Vec<i64>>, w: Seq<int>, k: int, x: int) -> int
    decreases k,
{
    if k <= 0 {
        0
    } else {
        col_combo(q, m, w, k - 1, x) + w[k - 1] * lagrange_eval(q.dom(), col_vals(m, k - 1, q.domain.len() as int), x)
    }
}

/// The greatest of three integers.
pub open spec fn max3(a: int, b: int, c: int) -> int {
    if a >= b && a >= c { a } else if b >= c { b } else { c }
}

/// Combining polynomials that are the column polynomials gives the column combination.
proof fn lemma_combo_is_col_combo(q: &Qap, m: Seq<Vec<i64>>, basis: Seq<Poly>, w: Seq<int>, k: int, x: int)
    requires
        0 <= k <= basis.len(),
        forall|j: int| 0 <= j < k ==>
            #[trigger] eval_mod(basis[j].vals(), x) == lagrange_eval(q.dom(), col_vals(m, j, q.domain.len() as int), x),
    ensures
        combo_eval(basis, w, k, x) == col_combo(q, m, w, k, x),
    decreases k,
{
    if k > 0 {
        lemma_combo_is_col_combo(q, m, basis, w, k - 1, x);
    }
}

/// The number of witness variables that enter the combination: the fewer
/// of the variables and the witness entries.
pub open spec fn used_vars(r1cs: &R1cs, w: Seq<int>) -> int {
    if r1cs.num_vars <= w.len() { r1cs.num_vars as int } else { w.len() as int }
}

/// `a`, `b` and `c` take, at each domain point `i`, the values of row `i`
/// of the matrices dotted with the witness `w`.
pub open spec fn abc_match(q: &Qap, r1cs: &R1cs, w: Seq<int>, a: Seq<int>, b: Seq<int>, c: Seq<int>) -> bool {
    forall|i: int| 0 <= i < q.domain.len() ==> {
        &&& #[trigger] eval_mod(a, q.dom()[i]) == dot_upto(r1cs.a@[i]@, w, used_vars(r1cs, w)) % pr()
        &&& eval_mod(b, q.dom()[i]) == dot_upto(r1cs.b@[i]@, w, used_vars(r1cs, w)) % pr()
        &&& eval_mod(c, q.dom()[i]) == dot_upto(r1cs.c@[i]@, w, used_vars(r1cs, w)) % pr()
    }
}

/// `a * b - c = h * t` as functions on the field.
pub open spec fn qap_holds(a: Seq<int>, b: Seq<int>, c: Seq<int>, h: Seq<int>, t: Seq<int>) -> bool {
    forall|x: int| #[trigger] cong(eval_mod(a, x) * eval_mod(b, x) - eval_mod(c, x), eval_mod(h, x) * eval_mod(t, x))
}

/// The matrix shape that `column_polys` reads: a row per domain point, each
/// with an entry per variable.
pub open spec fn shaped(m: Seq<Vec<i64>>, rows: int, cols: int) -> bool {
    &&& m.len() >= rows
    &&& forall|i: int| 0 <= i < rows ==> #[trigger] m[i].len() >= cols
}

/// A combination of basis polynomials whose values at `x` are the row's
/// entries is, at `x`, the row's dot product with the witness.
proof fn lemma_combo_is_dot(basis: Seq<Poly>, w: Seq<int>, row: Seq<i64>, k: int, x: int)
    requires
        0 <= k <= basis.len(),
        k <= row.len(),
        k <= w.len(),
        forall|j: int| 0 <= j < k ==> #[trigger] eval_mod(basis[j].vals(), x) == i64_val(row[j]),
    ensures
        cong(combo_eval(basis, w, k, x), dot_upto(row, w, k)),
    decreases k,
{
    if k > 0 {
        lemma_combo_is_dot(basis, w, row, k - 1, x);
        let e = eval_mod(basis[k - 1].vals(), x);
        let rv = row[k - 1] as int;
        lemma_cong_mod(rv);
        assert(e == rv % pr());
        lemma_cong_mul(w[k - 1], w[k - 1], e, rv);
        assert(w[k - 1] * rv == rv * w[k - 1]) by (nonlinear_arith);
        lemma_cong_add(combo_eval(basis, w, k - 1, x), dot_upto(row, w, k - 1), w[k - 1] * e, rv * w[k - 1]);
    }
}

/// When `t` (with an invertible leading coefficient) divides `s`, and
/// `s = h * t + rem` with `rem` reduced and of lower degree than `t`, the
/// remainder is zero.
proof fn lemma_divisible_remainder_zero(t: Seq<int>, s: Seq<int>, h: Seq<int>, rem: Seq<int>)
    requires
        t.len() >= 1,
        invertible(t.last()),
        divides(t, s),
        forall|k: int| #[trigger] cong(coef(s, k), coef(pmul(h, t), k) + coef(rem, k)),
        all_zero(rem) || sdeg(rem) < sdeg(t),
        forall|i: int| 0 <= i < rem.len() ==> 0 <= #[trigger] rem[i] < pr(),
    ensures
        all_zero(rem),
{
    let p = pr();
    let g = choose|g: Seq<int>| #[trigger] is_quotient(s, t, g);
    let len: nat = if g.len() >= h.len() { g.len() } else { h.len() };
    let gm = Seq::new(len, |i: int| (coef(g, i) - coef(h, i)) % pr());
    assert forall|i: int| #[trigger] cong(coef(gm, i), coef(g, i) + (-1) * coef(h, i)) by {
        if 0 <= i < len {
            lemma_cong_mod(coef(g, i) - coef(h, i));
        } else {
            assert(coef(g, i) == 0 && coef(h, i) == 0);
        }
    }
    lemma_pmul_linear(g, h, gm, -1, t);
    // (g - h) * t is the remainder, coefficient by coefficient
    assert forall|k: int| #[trigger] cong(coef(pmul(gm, t), k), coef(rem, k)) by {
        assert(cong(coef(s, k), coef(pmul(g, t), k)));
        assert(cong(coef(s, k), coef(pmul(h, t), k) + coef(rem, k)));
        assert(cong(coef(pmul(gm, t), k), coef(pmul(g, t), k) + (-1) * coef(pmul(h, t), k)));
        lemma_cong_sub(coef(pmul(g, t), k), coef(pmul(h, t), k) + coef(rem, k), coef(pmul(h, t), k), coef(pmul(h, t), k));
    }
    let gs = strip(gm);
    lemma_strip(gm);
    let e: Seq<int> = seq![];
    assert forall|i: int| #[trigger] cong(coef(gs, i), coef(gm, i) + 0 * coef(e, i)) by {
        assert(0 * coef(e, i) == 0);
    }
    lemma_pmul_linear(gm, e, gs, 0, t);
    assert forall|k: int| #[trigger] cong(coef(pmul(gs, t), k), coef(rem, k)) by {
        assert(cong(coef(pmul(gs, t), k), coef(pmul(gm, t), k) + 0 * coef(pmul(e, t), k)));
        assert(0 * coef(pmul(e, t), k) == 0);
        assert(cong(coef(pmul(gm, t), k), coef(rem, k)));
    }
    // the leading coefficient of gs is a reduced value
    let top = gs.len() - 1;
    assert(coef(gs, top) == coef(gm, top));
    assert(0 <= gs.last() < p) by {
        if top < len {
            lemma_mod_bound(coef(g, top) - coef(h, top), p);
        }
    }
    if gs.last() != 0 {
        lemma_pmul_len_last(gs, t);
        let n = t.len() - 1;
        let kk = gs.len() + n - 1;
        let gl = gs.last();
        let tl = t.last();
        assert(coef(pmul(gs, t), kk) == gl * tl);
        assert(coef(rem, kk) == 0) by {
            if !all_zero(rem) {
                assert(rem.len() <= n);
            } else if 0 <= kk < rem.len() {
                assert(rem[kk] == 0);
            }
        }
        assert(cong(gl * tl, 0));
        // then gl = (tl * w) * gl = w * (gl * tl) would be zero
        let w = choose|w: int| #[trigger] is_inverse(tl, w);
        lemma_cong_mul(tl * w, 1, gl, gl);
        lemma_cong_mul(w, w, gl * tl, 0);
        assert((tl * w) * gl == w * (gl * tl)) by (nonlinear_arith);
        assert(1 * gl == gl && w * 0 == 0);
        lemma_small_mod(gl as nat, p as nat);
        assert(0int % p == 0);
        assert(false);
    }
    assert(gs.len() == 1);
    assert forall|i: int| #[trigger] cong(coef(gs, i), coef(e, i) + 0 * coef(e, i)) by {
        assert(0 * coef(e, i) == 0);
    }
    lemma_pmul_linear(e, e, gs, 0, t);
    assert forall|i: int| 0 <= i < rem.len() implies rem[i] == 0 by {
        assert(cong(coef(pmul(gs, t), i), coef(rem, i)));
        assert(cong(coef(pmul(gs, t), i), coef(pmul(e, t), i) + 0 * coef(pmul(e, t), i)));
        assert(pmul(e, t).len() == 0);
        assert(0 * 0int == 0);
        assert(0int % p == 0);
        lemma_small_mod(rem[i] as nat, p as nat);
    }
}

impl Qap {
    /// The values of the domain points.
    pub open spec fn dom(&self) -> Seq<int> {
        fe_vals(self.domain@)
    }

    /// `t` is the monic polynomial of degree `|domain|` whose value at `x`
    /// is `prod_{d in domain} (x - d)`.
    pub open spec fn wf(&self) -> bool {
        &&& self.t.vals().len() == self.domain.len() + 1
        &&& self.t.vals().last() == 1
        &&& forall|x: int| #[trigger] eval_mod(self.t.vals(), x)
            == prod_except(self.dom(), -1, self.domain.len() as int, x) % pr()
    }

    /// The QAP of `r1cs` over `domain`, one point per constraint.
    pub fn new(r1cs: &R1cs, domain: Vec<Fe>) -> (q: Qap)
        requires
            domain.len() == r1cs.a.len(),
            domain.len() < usize::MAX,
        ensures
            q.domain@ == domain@,
            q.wf(),
    {
        let n: usize = domain.len();
        let ghost ds = fe_vals(domain@);
        let one_vec = vec![Fe::one()];
        proof {
            assert(fe_vals(one_vec@) =~= seq![1int]);
            lemma_strip(seq![1int]);
        }
        let mut t = Poly::new(one_vec);
        proof {
            assert forall|x: int| #[trigger] eval_mod(t.vals(), x) == prod_except(ds, -1, 0, x) % pr() by {
                lemma_peval_single(1, x);
            }
        }
        let mut j: usize = 0;
        while j < n
            invariant
                j <= n,
                n == domain.len(),
                n < usize::MAX,
                ds == fe_vals(domain@),
                t.vals().len() == j + 1,
                t.vals().last() == 1,
                forall|x: int| #[trigger] eval_mod(t.vals(), x) == prod_except(ds, -1, j as int, x) % pr(),
            decreases n - j,
        {
            let factor = linear_factor(domain[j]);
            let ghost old_t = t.vals();
            proof {
                lemma_pmul_len_last(old_t, factor.vals());
                assert(1int * 1int == 1);
                lemma_small_mod(1nat, pr() as nat);
                let pm = pmod(pmul(old_t, factor.vals()));
                assert(pm.last() == 1);
                lemma_strip(pm);
            }
            t = t.mul(&factor);
            proof {
                assert forall|x: int| #[trigger] eval_mod(t.vals(), x) == prod_except(ds, -1, j + 1, x) % pr() by {
                    lemma_eval_mul(old_t, factor.vals(), x);
                    assert(ds[j as int] == domain@[j as int].val());
                    lemma_mul_mod_noop_general(prod_except(ds, -1, j as int, x), x - ds[j as int], pr());
                }
            }
            j += 1;
        }
        Qap { domain, t }
    }

    /// For each variable `j < num_vars`, the polynomial through
    /// `(domain[i], matrix[i][j])` over the domain points.
    pub fn column_polys(&self, matrix: &[Vec<i64>], num_vars: usize) -> (cols: Vec<Poly>)
        requires
            matrix.len() >= self.domain.len(),
            forall|i: int| 0 <= i < self.domain.len() ==> #[trigger] matrix[i].len() >= num_vars,
            distinct_points(self.dom()),
            self.domain.len() < usize::MAX,
        ensures
            cols.len() == num_vars,
            forall|j: int| 0 <= j < num_vars ==> #[trigger] trimmed(cols[j].vals()),
            forall|j: int| 0 <= j < num_vars ==>
                #[trigger] cols[j].coeffs.len() <= if self.domain.len() == 0 { 1 } else { self.domain.len() },
            forall|j: int, i: int| 0 <= j < num_vars && 0 <= i < self.domain.len() ==>
                #[trigger] eval_mod(cols[j].vals(), self.dom()[i]) == i64_val(matrix[i]@[j]),
            forall|j: int, x: int| 0 <= j < num_vars ==>
                #[trigger] eval_mod(cols[j].vals(), x) == lagrange_eval(self.dom(), col_vals(matrix@, j, self.domain.len() as int), x),
    {
        let n: usize = self.domain.len();
        let mut cols: Vec<Poly> = Vec::new();
        let mut j: usize = 0;
        while j < num_vars
            invariant
                j <= num_vars,
                n == self.domain.len(),
                n < usize::MAX,
                matrix.len() >= n,
                forall|i: int| 0 <= i < n ==> #[trigger] matrix[i].len() >= num_vars,
                distinct_points(self.dom()),
                cols.len() == j,
                forall|jj: int| 0 <= jj < j ==> #[trigger] trimmed(cols[jj].vals()),
                forall|jj: int| 0 <= jj < j ==> #[trigger] cols[jj].coeffs.len() <= if n == 0 { 1 } else { n },
                forall|jj: int, i: int| 0 <= jj < j && 0 <= i < n ==>
                    #[trigger] eval_mod(cols[jj].vals(), self.dom()[i]) == i64_val(matrix[i]@[jj]),
                forall|jj: int, x: int| 0 <= jj < j ==>
                    #[trigger] eval_mod(cols[jj].vals(), x) == lagrange_eval(self.dom(), col_vals(matrix@, jj, n as int), x),
            decreases num_vars - j,
        {
            let mut points: Vec<(Fe, Fe)> = Vec::new();
            let mut i: usize = 0;
            while i < n
                invariant
                    i <= n,
                    j < num_vars,
                    n == self.domain.len(),
                    matrix.len() >= n,
                    forall|k: int| 0 <= k < n ==> #[trigger] matrix[k].len() >= num_vars,
                    points.len() == i,
                    forall|k: int| 0 <= k < i ==> #[trigger] points@[k].0 == self.domain@[k],
                    forall|k: int| 0 <= k < i ==> #[trigger] points@[k].1.val() == i64_val(matrix[k]@[j as int]),
                decreases n - i,
            {
                assert(matrix[i as int].len() >= num_vars);
                let v = Fe::from_i64(matrix[i][j]);
                points.push((self.domain[i], v));
                i += 1;
            }
            assert(point_xs(points@) =~= self.dom());
            assert(point_ys(points@) =~= col_vals(matrix@, j as int, n as int));
            let p = Poly::interpolate(points.as_slice());
            proof {
                assert forall|k: int| 0 <= k < n implies
                    #[trigger] eval_mod(p.vals(), self.dom()[k]) == i64_val(matrix[k]@[j as int]) by {
                    assert(point_xs(points@)[k] == self.dom()[k]);
                    assert(point_ys(points@)[k] == points@[k].1.val());
                }
            }
            cols.push(p);
            j += 1;
        }
        cols
    }

    fn combine_with_witness(basis: &[Poly], w: &[Fe], Ghost(bound): Ghost<int>) -> (acc: Poly)
        requires
            bound >= 1,
            forall|j: int| 0 <= j < basis.len() ==> #[trigger] basis[j].coeffs.len() <= bound,
        ensures
            trimmed(acc.vals()),
            acc.coeffs.len() <= bound,
            forall|x: int| #[trigger] eval_mod(acc.vals(), x) == combo_eval(
                basis@,
                fe_vals(w@),
                if basis.len() <= w.len() { basis.len() as int } else { w.len() as int },
                x,
            ) % pr(),
    {
        let n: usize = if basis.len() <= w.len() { basis.len() } else { w.len() };
        let ghost wv = fe_vals(w@);
        let mut acc = Poly::zero();
        proof {
            assert forall|x: int| #[trigger] eval_mod(acc.vals(), x) == combo_eval(basis@, wv, 0, x) % pr() by {
                lemma_peval_single(0, x);
            }
            lemma_strip(seq![0int]);
        }
        let mut k: usize = 0;
        while k < n
            invariant
                k <= n,
                n <= basis.len(),
                n <= w.len(),
                wv == fe_vals(w@),
                trimmed(acc.vals()),
                bound >= 1,
                forall|j: int| 0 <= j < basis.len() ==> #[trigger] basis[j].coeffs.len() <= bound,
                acc.coeffs.len() <= bound,
                forall|x: int| #[trigger] eval_mod(acc.vals(), x) == combo_eval(basis@, wv, k as int, x) % pr(),
            decreases n - k,
        {
            let term = basis[k].scale(w[k]);
            let ghost old_acc = acc.vals();
            proof {
                assert(basis[k as int].coeffs.len() <= bound);
                lemma_strip(pmod(pscale(basis@[k as int].vals(), w@[k as int].val() as int)));
                assert(term.coeffs.len() == term.vals().len());
                assert(term.coeffs.len() <= bound);
            }
            acc = acc.add(&term);
            proof {
                lemma_strip(pmod(padd(old_acc, term.vals())));
                assert(acc.coeffs.len() == acc.vals().len());
                assert forall|x: int| #[trigger] eval_mod(acc.vals(), x) == combo_eval(basis@, wv, k + 1, x) % pr() by {
                    let ev = eval_mod(basis@[k as int].vals(), x);
                    lemma_eval_add(old_acc, term.vals(), x);
                    lemma_eval_scale(basis@[k as int].vals(), w@[k as int].val() as int, x);
                    assert(wv[k as int] == w@[k as int].val());
                    let c = combo_eval(basis@, wv, k as int, x);
                    lemma_cong_mod(c);
                    lemma_cong_mod(wv[k as int] * ev);
                    lemma_cong_add(eval_mod(old_acc, x), c, eval_mod(term.vals(), x), wv[k as int] * ev);
                    lemma_cong_mod(eval_mod(old_acc, x) + eval_mod(term.vals(), x));
                    lemma_small_mod(eval_mod(acc.vals(), x) as nat, pr() as nat);
                }
            }
            k += 1;
        }
        acc
    }

    /// The polynomials `A`, `B`, `C`: the column polynomials of each matrix
    /// combined with the witness `w`.
    pub fn build_abc(&self, r1cs: &R1cs, w: &[Fe]) -> (res: (Poly, Poly, Poly))
        requires
            shaped(r1cs.a@, self.domain.len() as int, r1cs.num_vars as int),
            shaped(r1cs.b@, self.domain.len() as int, r1cs.num_vars as int),
            shaped(r1cs.c@, self.domain.len() as int, r1cs.num_vars as int),
            distinct_points(self.dom()),
            self.domain.len() < usize::MAX,
        ensures
            trimmed(res.0.vals()),
            trimmed(res.1.vals()),
            trimmed(res.2.vals()),
            res.0.coeffs.len() <= if self.domain.len() == 0 { 1 } else { self.domain.len() },
            res.1.coeffs.len() <= if self.domain.len() == 0 { 1 } else { self.domain.len() },
            res.2.coeffs.len() <= if self.domain.len() == 0 { 1 } else { self.domain.len() },
            abc_match(self, r1cs, fe_vals(w@), res.0.vals(), res.1.vals(), res.2.vals()),
            forall|x: int| #[trigger] eval_mod(res.0.vals(), x)
                == col_combo(self, r1cs.a@, fe_vals(w@), used_vars(r1cs, fe_vals(w@)), x) % pr(),
            forall|x: int| #[trigger] eval_mod(res.1.vals(), x)
                == col_combo(self, r1cs.b@, fe_vals(w@), used_vars(r1cs, fe_vals(w@)), x) % pr(),
            forall|x: int| #[trigger] eval_mod(res.2.vals(), x)
                == col_combo(self, r1cs.c@, fe_vals(w@), used_vars(r1cs, fe_vals(w@)), x) % pr(),
    {
        let a_basis = self.column_polys(r1cs.a.as_slice(), r1cs.num_vars);
        let b_basis = self.column_polys(r1cs.b.as_slice(), r1cs.num_vars);
        let c_basis = self.column_polys(r1cs.c.as_slice(), r1cs.num_vars);
        let ghost bound: int = if self.domain.len() == 0 { 1 } else { self.domain.len() as int };
        let pa = Self::combine_with_witness(a_basis.as_slice(), w, Ghost(bound));
        let pb = Self::combine_with_witness(b_basis.as_slice(), w, Ghost(bound));
        let pc = Self::combine_with_witness(c_basis.as_slice(), w, Ghost(bound));
        proof {
            let wv = fe_vals(w@);
            let m = used_vars(r1cs, wv);
            assert forall|i: int| 0 <= i < self.domain.len() implies {
                &&& #[trigger] eval_mod(pa.vals(), self.dom()[i]) == dot_upto(r1cs.a@[i]@, wv, m) % pr()
                &&& eval_mod(pb.vals(), self.dom()[i]) == dot_upto(r1cs.b@[i]@, wv, m) % pr()
                &&& eval_mod(pc.vals(), self.dom()[i]) == dot_upto(r1cs.c@[i]@, wv, m) % pr()
            } by {
                let x = self.dom()[i];
                assert(r1cs.a@[i].len() >= r1cs.num_vars);
                assert(r1cs.b@[i].len() >= r1cs.num_vars);
                assert(r1cs.c@[i].len() >= r1cs.num_vars);
                assert forall|j: int| 0 <= j < m implies #[trigger] eval_mod(a_basis@[j].vals(), x) == i64_val(r1cs.a@[i]@[j]) by {
                    assert(eval_mod(a_basis[j].vals(), self.dom()[i]) == i64_val(r1cs.a@[i]@[j]));
                }
                assert forall|j: int| 0 <= j < m implies #[trigger] eval_mod(b_basis@[j].vals(), x) == i64_val(r1cs.b@[i]@[j]) by {
                    assert(eval_mod(b_basis[j].vals(), self.dom()[i]) == i64_val(r1cs.b@[i]@[j]));
                }
                assert forall|j: int| 0 <= j < m implies #[trigger] eval_mod(c_basis@[j].vals(), x) == i64_val(r1cs.c@[i]@[j]) by {
                    assert(eval_mod(c_basis[j].vals(), self.dom()[i]) == i64_val(r1cs.c@[i]@[j]));
                }
                lemma_combo_is_dot(a_basis@, wv, r1cs.a@[i]@, m, x);
                lemma_combo_is_dot(b_basis@, wv, r1cs.b@[i]@, m, x);
                lemma_combo_is_dot(c_basis@, wv, r1cs.c@[i]@, m, x);
                lemma_cong_mod(combo_eval(a_basis@, wv, m, x));
                lemma_cong_mod(combo_eval(b_basis@, wv, m, x));
                lemma_cong_mod(combo_eval(c_basis@, wv, m, x));
                lemma_cong_mod(dot_upto(r1cs.a@[i]@, wv, m));
                lemma_cong_mod(dot_upto(r1cs.b@[i]@, wv, m));
                lemma_cong_mod(dot_upto(r1cs.c@[i]@, wv, m));
            }
            assert forall|x: int| #[trigger] eval_mod(pa.vals(), x) == col_combo(self, r1cs.a@, wv, m, x) % pr() by {
                lemma_combo_is_col_combo(self, r1cs.a@, a_basis@, wv, m, x);
            }
            assert forall|x: int| #[trigger] eval_mod(pb.vals(), x) == col_combo(self, r1cs.b@, wv, m, x) % pr() by {
                lemma_combo_is_col_combo(self, r1cs.b@, b_basis@, wv, m, x);
            }
            assert forall|x: int| #[trigger] eval_mod(pc.vals(), x) == col_combo(self, r1cs.c@, wv, m, x) % pr() by {
                lemma_combo_is_col_combo(self, r1cs.c@, c_basis@, wv, m, x);
            }
        }
        (pa, pb, pc)
    }

    /// On distinct domain points, `a * b - c` vanishes on every point, which
    /// is exactly when `t` divides it.
    pub open spec fn vanishes_on_domain(&self, a: &Poly, b: &Poly, c: &Poly) -> bool {
        &&& distinct_points(self.dom())
        &&& forall|i: int| 0 <= i < self.domain.len() ==>
            #[trigger] cong(eval_mod(a.vals(), self.dom()[i]) * eval_mod(b.vals(), self.dom()[i]), eval_mod(c.vals(), self.dom()[i]))
    }

    /// The quotient `h = (a * b - c) / t`, for a `t` with a nonzero leading
    /// coefficient. The division leaves no remainder exactly when `t`
    /// divides `a * b - c`, which is what this requires; when `t` is the
    /// vanishing polynomial of distinct domain points, it is enough that
    /// `a * b - c` vanishes on each of them.
    pub fn compute_h(&self, a: &Poly, b: &Poly, c: &Poly) -> (h: Poly)
        requires
            self.t.coeffs.len() >= 1,
            self.t.vals().last() != 0,
            a.coeffs.len() + b.coeffs.len() >= 1,
            a.coeffs.len() + b.coeffs.len() <= usize::MAX + 1,
            divides(self.t.vals(), psub(pmul(a.vals(), b.vals()), c.vals()))
                || (self.wf() && self.vanishes_on_domain(a, b, c)),
        ensures
            trimmed(h.vals()),
            is_quotient(psub(pmul(a.vals(), b.vals()), c.vals()), self.t.vals(), h.vals()),
            h.coeffs.len() + sdeg(self.t.vals())
                <= max3(a.coeffs.len() + b.coeffs.len() - 1, c.coeffs.len() as int, (sdeg(self.t.vals()) + 1) as int),
            qap_holds(a.vals(), b.vals(), c.vals(), h.vals(), self.t.vals()),
    {
        let ab = a.mul(b);
        let numerator = ab.sub(c);
        proof {
            if a.coeffs.len() > 0 {
                lemma_pmul_len_bound(a.vals(), b.vals());
            }
            lemma_strip(pmod(pmul(a.vals(), b.vals())));
            lemma_strip(pmod(psub(ab.vals(), c.vals())));
        }
        let (h, rem) = numerator.div_rem(&self.t);
        // the leading coefficient of t has an inverse
        let lead_inverse = self.t.coeffs[self.t.coeffs.len() - 1].inverse();
        proof {
            let n = self.domain.len() as int;
            let ds = self.dom();
            let p = pr();
            assert forall|x: int| #[trigger] eval_mod(numerator.vals(), x)
                == (eval_mod(a.vals(), x) * eval_mod(b.vals(), x) - eval_mod(c.vals(), x)) % p by {
                lemma_eval_sub(ab.vals(), c.vals(), x);
                lemma_eval_mul(a.vals(), b.vals(), x);
                lemma_cong_mod(eval_mod(a.vals(), x) * eval_mod(b.vals(), x));
                lemma_cong_sub(eval_mod(ab.vals(), x), eval_mod(a.vals(), x) * eval_mod(b.vals(), x), eval_mod(c.vals(), x), eval_mod(c.vals(), x));
            }
            let big = psub(pmul(a.vals(), b.vals()), c.vals());
            assert forall|k: int| #[trigger] cong(coef(numerator.vals(), k), coef(big, k)) by {
                lemma_coef_strip_pmod(psub(ab.vals(), c.vals()), k);
                lemma_coef_psub(ab.vals(), c.vals(), k);
                lemma_coef_strip_pmod(pmul(a.vals(), b.vals()), k);
                lemma_coef_psub(pmul(a.vals(), b.vals()), c.vals(), k);
                let x = coef(pmul(a.vals(), b.vals()), k);
                lemma_cong_mod(x);
                lemma_cong_sub(x % p, x, coef(c.vals(), k), coef(c.vals(), k));
                lemma_cong_mod(coef(ab.vals(), k) - coef(c.vals(), k));
            }
            assert forall|k: int| #[trigger] cong(coef(big, k), coef(pmul(h.vals(), self.t.vals()), k) + coef(rem.vals(), k)) by {
                assert(cong(coef(numerator.vals(), k), coef(pmul(h.vals(), self.t.vals()), k) + coef(rem.vals(), k)));
                assert(cong(coef(numerator.vals(), k), coef(big, k)));
            }
            if divides(self.t.vals(), big) {
                assert forall|i: int| 0 <= i < rem.vals().len() implies 0 <= #[trigger] rem.vals()[i] < p by {
                    assert(rem.vals()[i] == rem.coeffs@[i].val());
                }
                let tl = self.t.vals().last();
                let w = lead_inverse.unwrap();
                assert(tl == self.t.coeffs@[self.t.coeffs.len() - 1].val());
                assert(is_inverse(tl, w.val() as int));
                lemma_divisible_remainder_zero(self.t.vals(), big, h.vals(), rem.vals());
            } else {
                // the remainder vanishes on the domain, and has too few coefficients to be nonzero
                assert forall|i: int| 0 <= i < n implies #[trigger] cong(crate::poly_math::peval(rem.vals(), ds[i]), 0) by {
                    let x = ds[i];
                    let ea = eval_mod(a.vals(), x);
                    let eb = eval_mod(b.vals(), x);
                    let ec = eval_mod(c.vals(), x);
                    let r = eval_mod(rem.vals(), x);
                    assert(cong(eval_mod(a.vals(), self.dom()[i]) * eval_mod(b.vals(), self.dom()[i]), eval_mod(c.vals(), self.dom()[i])));
                    lemma_prod_except_vanishes(ds, -1, n, i);
                    assert(eval_mod(self.t.vals(), x) == 0);
                    assert(eval_mod(h.vals(), x) * 0 == 0);
                    assert(eval_mod(numerator.vals(), x) == r % p);
                    lemma_small_mod(r as nat, p as nat);
                    lemma_cong_sub(ea * eb, ec, ec, ec);
                    assert(ec - ec == 0);
                    assert(0int % p == 0);
                    assert(eval_mod(numerator.vals(), x) == (ea * eb - ec) % p);
                    assert(r == 0);
                }
                if !all_zero(rem.vals()) {
                    assert(sdeg(self.t.vals()) == n);
                    lemma_roots_force_zero(rem.vals(), ds);
                    assert forall|k: int| 0 <= k < rem.vals().len() implies rem.vals()[k] == 0 by {
                        assert(cong(rem.vals()[k], 0));
                        assert(rem.vals()[k] == rem.coeffs@[k].val());
                        lemma_small_mod(rem.coeffs@[k].val(), p as nat);
                    }
                }
            }
            assert(all_zero(rem.vals()));
            assert forall|k: int| #[trigger] cong(coef(big, k), coef(pmul(h.vals(), self.t.vals()), k)) by {
                assert(cong(coef(big, k), coef(pmul(h.vals(), self.t.vals()), k) + coef(rem.vals(), k)));
                if 0 <= k < rem.vals().len() {
                    assert(rem.vals()[k] == 0);
                }
                assert(coef(rem.vals(), k) == 0);
            }
            assert forall|x: int| #[trigger] cong(eval_mod(a.vals(), x) * eval_mod(b.vals(), x) - eval_mod(c.vals(), x),
                eval_mod(h.vals(), x) * eval_mod(self.t.vals(), x)) by {
                lemma_all_zero_evals_zero(rem.vals(), x);
                let ht = eval_mod(h.vals(), x) * eval_mod(self.t.vals(), x);
                assert(eval_mod(numerator.vals(), x) == (ht + 0) % p);
                lemma_cong_mod(eval_mod(a.vals(), x) * eval_mod(b.vals(), x) - eval_mod(c.vals(), x));
                lemma_cong_mod(ht);
            }
        }
        h
    }
}

/// The vanishing polynomial is zero on every domain point.
pub proof fn lemma_t_vanishes_on_domain(q: Qap)
    requires
        q.wf(),
    ensures
        forall|i: int| 0 <= i < q.domain.len() ==> #[trigger] eval_mod(q.t.vals(), q.dom()[i]) == 0,
{
    assert forall|i: int| 0 <= i < q.domain.len() implies #[trigger] eval_mod(q.t.vals(), q.dom()[i]) == 0 by {
        lemma_prod_except_vanishes(q.dom(), -1, q.domain.len() as int, i);
    }
}

/// At a domain point, the values of `A`, `B`, `C` are the row's dot products.
proof fn lemma_row_values(q: Qap, r1cs: R1cs, w: Seq<int>, a: Seq<int>, b: Seq<int>, c: Seq<int>, i: int)
    requires
        abc_match(&q, &r1cs, w, a, b, c),
        0 <= i < q.domain.len(),
        q.domain.len() == r1cs.a.len(),
        w.len() == r1cs.num_vars,
        shaped(r1cs.a@, q.domain.len() as int, r1cs.num_vars as int),
        shaped(r1cs.b@, q.domain.len() as int, r1cs.num_vars as int),
        shaped(r1cs.c@, q.domain.len() as int, r1cs.num_vars as int),
    ensures
        cong(eval_mod(a, q.dom()[i]), row_dot(r1cs.a@[i]@, w)),
        cong(eval_mod(b, q.dom()[i]), row_dot(r1cs.b@[i]@, w)),
        cong(eval_mod(c, q.dom()[i]), row_dot(r1cs.c@[i]@, w)),
{
    assert(eval_mod(a, q.dom()[i]) == dot_upto(r1cs.a@[i]@, w, used_vars(&r1cs, w)) % pr());
    assert(r1cs.a@[i].len() >= r1cs.num_vars);
    assert(r1cs.b@[i].len() >= r1cs.num_vars);
    assert(r1cs.c@[i].len() >= r1cs.num_vars);
    lemma_cong_mod(row_dot(r1cs.a@[i]@, w));
    lemma_cong_mod(row_dot(r1cs.b@[i]@, w));
    lemma_cong_mod(row_dot(r1cs.c@[i]@, w));
}

/// Soundness of the reduction: if the polynomials built from `w` satisfy
/// `A * B - C = H * T`, then `w` satisfies every constraint of the R1CS.
pub proof fn lemma_qap_implies_r1cs(q: Qap, r1cs: R1cs, w: Seq<int>, a: Seq<int>, b: Seq<int>, c: Seq<int>, h: Seq<int>)
    requires
        q.wf(),
        q.domain.len() == r1cs.a.len(),
        w.len() == r1cs.num_vars,
        shaped(r1cs.a@, q.domain.len() as int, r1cs.num_vars as int),
        shaped(r1cs.b@, q.domain.len() as int, r1cs.num_vars as int),
        shaped(r1cs.c@, q.domain.len() as int, r1cs.num_vars as int),
        abc_match(&q, &r1cs, w, a, b, c),
        qap_holds(a, b, c, h, q.t.vals()),
    ensures
        r1cs.satisfied_by(w),
{
    lemma_t_vanishes_on_domain(q);
    assert forall|i: int| 0 <= i < r1cs.a.len() implies #[trigger] r1cs.row_ok(i, w) by {
        let x = q.dom()[i];
        lemma_row_values(q, r1cs, w, a, b, c, i);
        let ea = eval_mod(a, x);
        let eb = eval_mod(b, x);
        let ec = eval_mod(c, x);
        assert(cong(ea * eb - ec, eval_mod(h, x) * eval_mod(q.t.vals(), x)));
        assert(eval_mod(q.t.vals(), x) == 0);
        assert(eval_mod(h, x) * 0 == 0);
        lemma_cong_add(ea * eb - ec, 0, ec, ec);
        lemma_cong_mul(ea, row_dot(r1cs.a@[i]@, w), eb, row_dot(r1cs.b@[i]@, w));
    }
}

/// Completeness of the reduction: if `w` satisfies the R1CS, then
/// `A * B - C` vanishes on every domain point, so `compute_h` leaves no
/// remainder.
pub proof fn lemma_r1cs_implies_qap(q: Qap, r1cs: R1cs, w: Seq<int>, a: Seq<int>, b: Seq<int>, c: Seq<int>)
    requires
        q.domain.len() == r1cs.a.len(),
        w.len() == r1cs.num_vars,
        shaped(r1cs.a@, q.domain.len() as int, r1cs.num_vars as int),
        shaped(r1cs.b@, q.domain.len() as int, r1cs.num_vars as int),
        shaped(r1cs.c@, q.domain.len() as int, r1cs.num_vars as int),
        abc_match(&q, &r1cs, w, a, b, c),
        r1cs.satisfied_by(w),
    ensures
        forall|i: int| 0 <= i < q.domain.len() ==>
            #[trigger] cong(eval_mod(a, q.dom()[i]) * eval_mod(b, q.dom()[i]), eval_mod(c, q.dom()[i])),
{
    assert forall|i: int| 0 <= i < q.domain.len() implies
        #[trigger] cong(eval_mod(a, q.dom()[i]) * eval_mod(b, q.dom()[i]), eval_mod(c, q.dom()[i])) by {
        lemma_row_values(q, r1cs, w, a, b, c, i);
        assert(r1cs.row_ok(i, w));
        lemma_cong_mul(eval_mod(a, q.dom()[i]), row_dot(r1cs.a@[i]@, w), eval_mod(b, q.dom()[i]), row_dot(r1cs.b@[i]@, w));
    }
}

/// The division check agrees with the constraint check: for the QAP of an
/// R1CS over distinct domain points and the polynomials that `build_abc`
/// makes from `w`, `compute_h` accepts them (its `requires` holds) exactly
/// when `w` satisfies every constraint.
pub proof fn lemma_compute_h_accepts_iff_satisfied(q: Qap, r1cs: R1cs, w: Seq<int>, a: Poly, b: Poly, c: Poly)
    requires
        q.wf(),
        distinct_points(q.dom()),
        q.domain.len() == r1cs.a.len(),
        w.len() == r1cs.num_vars,
        shaped(r1cs.a@, q.domain.len() as int, r1cs.num_vars as int),
        shaped(r1cs.b@, q.domain.len() as int, r1cs.num_vars as int),
        shaped(r1cs.c@, q.domain.len() as int, r1cs.num_vars as int),
        abc_match(&q, &r1cs, w, a.vals(), b.vals(), c.vals()),
    ensures
        (divides(q.t.vals(), psub(pmul(a.vals(), b.vals()), c.vals())) || (q.wf() && q.vanishes_on_domain(&a, &b, &c)))
            <==> r1cs.satisfied_by(w),
{
    let av = a.vals();
    let bv = b.vals();
    let cv = c.vals();
    let big = psub(pmul(av, bv), cv);
    if r1cs.satisfied_by(w) {
        lemma_r1cs_implies_qap(q, r1cs, w, av, bv, cv);
    }
    if divides(q.t.vals(), big) {
        let g = choose|g: Seq<int>| #[trigger] is_quotient(big, q.t.vals(), g);
        lemma_t_vanishes_on_domain(q);
        assert forall|i: int| 0 <= i < q.domain.len() implies
            #[trigger] cong(eval_mod(av, q.dom()[i]) * eval_mod(bv, q.dom()[i]), eval_mod(cv, q.dom()[i])) by {
            let x = q.dom()[i];
            lemma_peval_cong(big, pmul(g, q.t.vals()), x);
            lemma_peval_mul(g, q.t.vals(), x);
            lemma_peval_sub(pmul(av, bv), cv, x);
            lemma_peval_mul(av, bv, x);
            let pa = peval(av, x);
            let pb = peval(bv, x);
            let pc = peval(cv, x);
            let pt = peval(q.t.vals(), x);
            assert(eval_mod(q.t.vals(), x) == 0);
            assert(cong(pt, 0));
            lemma_cong_mul(peval(g, x), peval(g, x), pt, 0);
            assert(peval(g, x) * 0 == 0);
            assert(cong(pa * pb - pc, 0));
            lemma_cong_add(pa * pb - pc, 0, pc, pc);
            lemma_cong_mod(pa);
            lemma_cong_mod(pb);
            lemma_cong_mod(pc);
            lemma_cong_mul(pa % pr(), pa, pb % pr(), pb);
        }
    }
    if q.vanishes_on_domain(&a, &b, &c) || divides(q.t.vals(), big) {
        assert forall|i: int| 0 <= i < r1cs.a.len() implies #[trigger] r1cs.row_ok(i, w) by {
            let x = q.dom()[i];
            lemma_row_values(q, r1cs, w, av, bv, cv, i);
            assert(cong(eval_mod(av, x) * eval_mod(bv, x), eval_mod(cv, x)));
            lemma_cong_mul(eval_mod(av, x), row_dot(r1cs.a@[i]@, w), eval_mod(bv, x), row_dot(r1cs.b@[i]@, w));
        }
    }
}

} // verus!
