//! The mathematics of polynomials over the integers, read coefficient by
//! coefficient from the constant term upwards, and facts about their
//! evaluation modulo the field order.

use vstd::prelude::*;
use vstd::arithmetic::div_mod::*;
use vstd::arithmetic::mul::*;
use crate::finite_field::modulus;

verus! {

/// The field order as an integer.
pub open spec fn pr() -> int {
    modulus() as int
}

/// Coefficient `i` of `s`, zero outside its range.
pub open spec fn coef(s: Seq<int>, i: int) -> int {
    if 0 <= i < s.len() { s[i] } else { 0 }
}

/// `s` without its constant coefficient (empty stays empty).
pub open spec fn tail(s: Seq<int>) -> Seq<int> {
    if s.len() == 0 { s } else { s.drop_first() }
}

/// The value of the polynomial `s` at `x`, over the integers.
pub open spec fn peval(s: Seq<int>, x: int) -> int
    decreases s.len(),
{
    if s.len() == 0 { 0 } else { s[0] + x * peval(s.drop_first(), x) }
}

/// The value of `s` at `x` in the field.
pub open spec fn eval_mod(s: Seq<int>, x: int) -> int {
    peval(s, x) % pr()
}

/// Coefficientwise sum.
pub open spec fn padd(a: Seq<int>, b: Seq<int>) -> Seq<int> {
    Seq::new(if a.len() >= b.len() { a.len() } else { b.len() }, |i: int| coef(a, i) + coef(b, i))
}

/// Coefficientwise difference.
pub open spec fn psub(a: Seq<int>, b: Seq<int>) -> Seq<int> {
    Seq::new(if a.len() >= b.len() { a.len() } else { b.len() }, |i: int| coef(a, i) - coef(b, i))
}

/// Every coefficient multiplied by `c`.
pub open spec fn pscale(a: Seq<int>, c: int) -> Seq<int> {
    Seq::new(a.len(), |i: int| a[i] * c)
}

/// Multiplication by the variable: a zero constant term in front (empty stays empty).
pub open spec fn pshift(a: Seq<int>) -> Seq<int> {
    if a.len() == 0 { a } else { seq![0int] + a }
}

/// `n` zero coefficients.
pub open spec fn zeros(n: nat) -> Seq<int> {
    Seq::new(n, |i: int| 0int)
}

/// The product of two polynomials: `a[0] * b + x * (rest of a) * b`.
pub open spec fn pmul(a: Seq<int>, b: Seq<int>) -> Seq<int>
    decreases a.len(),
{
    if a.len() == 0 {
        seq![]
    } else {
        padd(pscale(b, a[0]), pshift(pmul(a.drop_first(), b)))
    }
}

/// Every coefficient reduced modulo the field order.
pub open spec fn pmod(a: Seq<int>) -> Seq<int> {
    Seq::new(a.len(), |i: int| a[i] % pr())
}

/// `s` without its trailing zero coefficients, keeping at least one; the
/// empty sequence becomes the single coefficient zero.
pub open spec fn strip(s: Seq<int>) -> Seq<int>
    decreases s.len(),
{
    if s.len() == 0 {
        seq![0int]
    } else if s.len() == 1 {
        s
    } else if s.last() == 0 {
        strip(s.drop_last())
    } else {
        s
    }
}

/// A coefficient sequence with at least one entry and no trailing zero beyond the first.
pub open spec fn trimmed(s: Seq<int>) -> bool {
    s.len() >= 1 && (s.len() == 1 || s.last() != 0)
}

/// Whether every coefficient is zero.
pub open spec fn all_zero(s: Seq<int>) -> bool {
    forall|i: int| 0 <= i < s.len() ==> s[i] == 0
}

pub proof fn lemma_peval_unfold(s: Seq<int>, x: int)
    ensures
        peval(s, x) == coef(s, 0) + x * peval(tail(s), x),
{
    if s.len() == 0 {
        assert(x * 0 == 0) by (nonlinear_arith);
    }
}

/// Evaluation is additive.
pub proof fn lemma_peval_add(a: Seq<int>, b: Seq<int>, x: int)
    ensures
        peval(padd(a, b), x) == peval(a, x) + peval(b, x),
    decreases a.len() + b.len(),
{
    let s = padd(a, b);
    if a.len() == 0 && b.len() == 0 {
    } else {
        assert(tail(s) =~= padd(tail(a), tail(b)));
        lemma_peval_add(tail(a), tail(b), x);
        lemma_peval_unfold(s, x);
        lemma_peval_unfold(a, x);
        lemma_peval_unfold(b, x);
        lemma_mul_is_distributive_add(x, peval(tail(a), x), peval(tail(b), x));
    }
}

/// Evaluation respects differences.
pub proof fn lemma_peval_sub(a: Seq<int>, b: Seq<int>, x: int)
    ensures
        peval(psub(a, b), x) == peval(a, x) - peval(b, x),
    decreases a.len() + b.len(),
{
    let s = psub(a, b);
    if a.len() == 0 && b.len() == 0 {
    } else {
        assert(tail(s) =~= psub(tail(a), tail(b)));
        lemma_peval_sub(tail(a), tail(b), x);
        lemma_peval_unfold(s, x);
        lemma_peval_unfold(a, x);
        lemma_peval_unfold(b, x);
        lemma_mul_is_distributive_sub(x, peval(tail(a), x), peval(tail(b), x));
    }
}

/// Evaluation commutes with scaling.
pub proof fn lemma_peval_scale(a: Seq<int>, c: int, x: int)
    ensures
        peval(pscale(a, c), x) == c * peval(a, x),
    decreases a.len(),
{
    if a.len() > 0 {
        let s = pscale(a, c);
        assert(s.drop_first() =~= pscale(a.drop_first(), c));
        lemma_peval_scale(a.drop_first(), c, x);
        let e = peval(a.drop_first(), x);
        assert(a[0] * c + x * (c * e) == c * (a[0] + x * e)) by (nonlinear_arith);
    }
}

/// Shifting multiplies the value by `x`.
pub proof fn lemma_peval_shift(a: Seq<int>, x: int)
    ensures
        peval(pshift(a), x) == x * peval(a, x),
{
    if a.len() == 0 {
        assert(x * 0 == 0) by (nonlinear_arith);
    } else {
        assert(pshift(a).drop_first() =~= a);
    }
}

/// Evaluation is multiplicative.
pub proof fn lemma_peval_mul(a: Seq<int>, b: Seq<int>, x: int)
    ensures
        peval(pmul(a, b), x) == peval(a, x) * peval(b, x),
    decreases a.len(),
{
    if a.len() > 0 {
        let r = pmul(a.drop_first(), b);
        lemma_peval_mul(a.drop_first(), b, x);
        lemma_peval_add(pscale(b, a[0]), pshift(r), x);
        lemma_peval_scale(b, a[0], x);
        lemma_peval_shift(r, x);
        let pa = peval(a.drop_first(), x);
        let pb = peval(b, x);
        assert(a[0] * pb + x * (pa * pb) == (a[0] + x * pa) * pb) by (nonlinear_arith);
    }
}

/// Reducing coefficients does not change the value in the field.
pub proof fn lemma_peval_mod(a: Seq<int>, x: int)
    ensures
        peval(pmod(a), x) % pr() == peval(a, x) % pr(),
    decreases a.len(),
{
    if a.len() > 0 {
        let m = pmod(a);
        assert(m.drop_first() =~= pmod(a.drop_first()));
        lemma_peval_mod(a.drop_first(), x);
        let e1 = peval(m.drop_first(), x);
        let e = peval(a.drop_first(), x);
        let p = pr();
        lemma_mul_mod_noop_right(x, e1, p);
        lemma_mul_mod_noop_right(x, e, p);
        lemma_add_mod_noop(a[0] % p, x * e1, p);
        lemma_add_mod_noop(a[0], x * e, p);
        lemma_mod_twice(a[0], p);
    }
}

/// A constant polynomial evaluates to its coefficient.
pub proof fn lemma_peval_single(c: int, x: int)
    ensures
        peval(seq![c], x) == c,
{
    let s = seq![c];
    assert(s.drop_first() =~= Seq::<int>::empty());
    assert(peval(s.drop_first(), x) == 0);
    assert(x * 0 == 0) by (nonlinear_arith);
}

/// A trailing zero does not change the value.
pub proof fn lemma_peval_push_zero(a: Seq<int>, x: int)
    ensures
        peval(a.push(0), x) == peval(a, x),
    decreases a.len(),
{
    if a.len() == 0 {
        lemma_peval_single(0, x);
        assert(a.push(0) =~= seq![0int]);
    } else {
        assert(a.push(0).drop_first() =~= a.drop_first().push(0));
        lemma_peval_push_zero(a.drop_first(), x);
    }
}

/// Stripping does not change the value.
pub proof fn lemma_peval_strip(s: Seq<int>, x: int)
    ensures
        peval(strip(s), x) == peval(s, x),
    decreases s.len(),
{
    if s.len() == 0 {
        lemma_peval_single(0, x);
    } else if s.len() > 1 && s.last() == 0 {
        lemma_peval_strip(s.drop_last(), x);
        assert(s =~= s.drop_last().push(0));
        lemma_peval_push_zero(s.drop_last(), x);
    }
}

/// What stripping keeps: a trimmed sequence no longer than the input (or one
/// coefficient), with every coefficient unchanged.
pub proof fn lemma_strip(s: Seq<int>)
    ensures
        trimmed(strip(s)),
        strip(s).len() <= if s.len() == 0 { 1 } else { s.len() },
        forall|k: int| #[trigger] coef(strip(s), k) == coef(s, k),
        trimmed(s) ==> strip(s) == s,
        s.len() > 1 && s.last() == 0 ==> strip(s).len() < s.len(),
    decreases s.len(),
{
    if s.len() > 1 && s.last() == 0 {
        lemma_strip(s.drop_last());
        assert forall|k: int| #[trigger] coef(strip(s), k) == coef(s, k) by {
            assert(coef(strip(s.drop_last()), k) == coef(s.drop_last(), k));
        }
    }
}

/// Field-level evaluation ignores trailing zeros and unreduced coefficients.
pub proof fn lemma_eval_strip_pmod(s: Seq<int>, x: int)
    ensures
        eval_mod(strip(pmod(s)), x) == peval(s, x) % pr(),
{
    lemma_peval_strip(pmod(s), x);
    lemma_peval_mod(s, x);
}

/// The value of a sum is the sum of the values.
pub proof fn lemma_eval_add(a: Seq<int>, b: Seq<int>, x: int)
    ensures
        eval_mod(strip(pmod(padd(a, b))), x) == (eval_mod(a, x) + eval_mod(b, x)) % pr(),
{
    lemma_eval_strip_pmod(padd(a, b), x);
    lemma_peval_add(a, b, x);
    lemma_add_mod_noop(peval(a, x), peval(b, x), pr());
}

/// The value of a difference is the difference of the values.
pub proof fn lemma_eval_sub(a: Seq<int>, b: Seq<int>, x: int)
    ensures
        eval_mod(strip(pmod(psub(a, b))), x) == (eval_mod(a, x) - eval_mod(b, x)) % pr(),
{
    lemma_eval_strip_pmod(psub(a, b), x);
    lemma_peval_sub(a, b, x);
    lemma_sub_mod_noop(peval(a, x), peval(b, x), pr());
}

/// The value of a scaled polynomial is the scaled value.
pub proof fn lemma_eval_scale(a: Seq<int>, c: int, x: int)
    ensures
        eval_mod(strip(pmod(pscale(a, c))), x) == (c * eval_mod(a, x)) % pr(),
{
    lemma_eval_strip_pmod(pscale(a, c), x);
    lemma_peval_scale(a, c, x);
    lemma_mul_mod_noop_right(c, peval(a, x), pr());
}

/// The value of a product is the product of the values.
pub proof fn lemma_eval_mul(a: Seq<int>, b: Seq<int>, x: int)
    ensures
        eval_mod(strip(pmod(pmul(a, b))), x) == (eval_mod(a, x) * eval_mod(b, x)) % pr(),
{
    lemma_eval_strip_pmod(pmul(a, b), x);
    lemma_peval_mul(a, b, x);
    lemma_mul_mod_noop_general(peval(a, x), peval(b, x), pr());
}

/// Length and leading coefficient of a product.
pub proof fn lemma_pmul_len_last(a: Seq<int>, b: Seq<int>)
    requires
        a.len() > 0,
        b.len() > 0,
    ensures
        pmul(a, b).len() == a.len() + b.len() - 1,
        pmul(a, b).last() == a.last() * b.last(),
    decreases a.len(),
{
    if a.len() == 1 {
        assert(a.drop_first().len() == 0);
        assert(pmul(a.drop_first(), b) =~= Seq::<int>::empty());
        assert(a.last() == a[0]);
    } else {
        lemma_pmul_len_last(a.drop_first(), b);
        assert(a.drop_first().last() == a.last());
    }
}

/// A product is no longer than the two factors together, less one.
pub proof fn lemma_pmul_len_bound(a: Seq<int>, b: Seq<int>)
    requires
        a.len() > 0,
    ensures
        pmul(a, b).len() <= a.len() + b.len() - 1,
    decreases a.len(),
{
    if a.len() == 1 {
        assert(pmul(a.drop_first(), b) =~= Seq::<int>::empty());
    } else {
        lemma_pmul_len_bound(a.drop_first(), b);
    }
}

/// Reducing and stripping keeps each coefficient, reduced.
pub proof fn lemma_coef_strip_pmod(x: Seq<int>, k: int)
    ensures
        coef(strip(pmod(x)), k) == coef(x, k) % pr(),
{
    lemma_strip(pmod(x));
    assert(0int % pr() == 0);
}

/// Coefficients of a difference are differences of coefficients.
pub proof fn lemma_coef_psub(x: Seq<int>, y: Seq<int>, k: int)
    ensures
        coef(psub(x, y), k) == coef(x, k) - coef(y, k),
{
}

/// Polynomials with congruent coefficients take congruent values.
pub proof fn lemma_peval_cong(s1: Seq<int>, s2: Seq<int>, x: int)
    requires
        forall|k: int| #[trigger] cong(coef(s1, k), coef(s2, k)),
    ensures
        cong(peval(s1, x), peval(s2, x)),
    decreases s1.len() + s2.len(),
{
    if s1.len() > 0 || s2.len() > 0 {
        let t1 = tail(s1);
        let t2 = tail(s2);
        assert forall|k: int| #[trigger] cong(coef(t1, k), coef(t2, k)) by {
            if k >= 0 {
                assert(coef(t1, k) == coef(s1, k + 1));
                assert(coef(t2, k) == coef(s2, k + 1));
                assert(cong(coef(s1, k + 1), coef(s2, k + 1)));
            }
        }
        lemma_peval_cong(t1, t2, x);
        assert(peval(s1, x) == coef(s1, 0) + x * peval(t1, x)) by {
            if s1.len() == 0 {
                assert(x * 0 == 0);
            }
        }
        assert(peval(s2, x) == coef(s2, 0) + x * peval(t2, x)) by {
            if s2.len() == 0 {
                assert(x * 0 == 0);
            }
        }
        assert(cong(coef(s1, 0), coef(s2, 0)));
        lemma_cong_mul(x, x, peval(t1, x), peval(t2, x));
        lemma_cong_add(coef(s1, 0), coef(s2, 0), x * peval(t1, x), x * peval(t2, x));
    }
}

/// `h * t` equals `s` coefficient by coefficient, modulo the field order.
pub open spec fn is_quotient(s: Seq<int>, t: Seq<int>, h: Seq<int>) -> bool {
    forall|k: int| #[trigger] cong(coef(s, k), coef(pmul(h, t), k))
}

/// `t` divides `s` in `Fr[x]`.
pub open spec fn divides(t: Seq<int>, s: Seq<int>) -> bool {
    exists|h: Seq<int>| #[trigger] is_quotient(s, t, h)
}

/// Coefficient `k` of a product: the constant term of `a` times `b`, plus
/// the rest of `a` times `b` one place up.
pub proof fn lemma_coef_pmul(a: Seq<int>, b: Seq<int>, k: int)
    ensures
        coef(pmul(a, b), k) == coef(b, k) * coef(a, 0) + coef(pmul(tail(a), b), k - 1),
{
    if a.len() == 0 {
        assert(pmul(tail(a), b) =~= Seq::<int>::empty());
        assert(coef(b, k) * 0 == 0);
    } else {
        let rest = pmul(a.drop_first(), b);
        assert(coef(pscale(b, a[0]), k) == coef(b, k) * a[0]);
        if rest.len() == 0 {
            assert(pshift(rest) =~= rest);
        } else {
            assert(coef(pshift(rest), k) == coef(rest, k - 1));
        }
    }
}

/// Products depend linearly on the coefficients of the first factor, modulo
/// the field order: if `a3 = a1 + c * a2` coefficient by coefficient, then
/// `a3 * b = a1 * b + c * (a2 * b)`.
pub proof fn lemma_pmul_linear(a1: Seq<int>, a2: Seq<int>, a3: Seq<int>, c: int, b: Seq<int>)
    requires
        forall|i: int| #[trigger] cong(coef(a3, i), coef(a1, i) + c * coef(a2, i)),
    ensures
        forall|k: int| #[trigger] cong(coef(pmul(a3, b), k), coef(pmul(a1, b), k) + c * coef(pmul(a2, b), k)),
    decreases a1.len() + a2.len() + a3.len(),
{
    if a1.len() == 0 && a2.len() == 0 && a3.len() == 0 {
        assert forall|k: int| #[trigger] cong(coef(pmul(a3, b), k), coef(pmul(a1, b), k) + c * coef(pmul(a2, b), k)) by {
            assert(pmul(a1, b).len() == 0 && pmul(a2, b).len() == 0 && pmul(a3, b).len() == 0);
            assert(c * 0 == 0);
        }
    } else {
        let t1 = tail(a1);
        let t2 = tail(a2);
        let t3 = tail(a3);
        assert forall|i: int| #[trigger] cong(coef(t3, i), coef(t1, i) + c * coef(t2, i)) by {
            if i >= 0 {
                assert(coef(t1, i) == coef(a1, i + 1));
                assert(coef(t2, i) == coef(a2, i + 1));
                assert(coef(t3, i) == coef(a3, i + 1));
                assert(cong(coef(a3, i + 1), coef(a1, i + 1) + c * coef(a2, i + 1)));
            } else {
                assert(c * 0 == 0);
            }
        }
        lemma_pmul_linear(t1, t2, t3, c, b);
        assert forall|k: int| #[trigger] cong(coef(pmul(a3, b), k), coef(pmul(a1, b), k) + c * coef(pmul(a2, b), k)) by {
            lemma_coef_pmul(a1, b, k);
            lemma_coef_pmul(a2, b, k);
            lemma_coef_pmul(a3, b, k);
            let bk = coef(b, k);
            let x1 = coef(a1, 0);
            let x2 = coef(a2, 0);
            let x3 = coef(a3, 0);
            let r1 = coef(pmul(t1, b), k - 1);
            let r2 = coef(pmul(t2, b), k - 1);
            let r3 = coef(pmul(t3, b), k - 1);
            assert(cong(x3, x1 + c * x2));
            assert(cong(r3, r1 + c * r2));
            lemma_cong_mul(bk, bk, x3, x1 + c * x2);
            lemma_cong_add(bk * x3, bk * (x1 + c * x2), r3, r1 + c * r2);
            assert(bk * (x1 + c * x2) + (r1 + c * r2) == (bk * x1 + r1) + c * (bk * x2 + r2)) by (nonlinear_arith);
        }
    }
}

/// The unit polynomial `x^s` times `b` shifts `b` up by `s` places.
pub proof fn lemma_pmul_unit(s: nat, b: Seq<int>, k: int)
    ensures
        coef(pmul(zeros(s).push(1), b), k) == coef(b, k - s),
    decreases s,
{
    let u = zeros(s).push(1);
    lemma_coef_pmul(u, b, k);
    if s == 0 {
        assert(tail(u) =~= Seq::<int>::empty());
        assert(pmul(tail(u), b) =~= Seq::<int>::empty());
        assert(coef(u, 0) == 1);
        assert(coef(b, k) * 1 == coef(b, k));
    } else {
        assert(tail(u) =~= zeros((s - 1) as nat).push(1));
        lemma_pmul_unit((s - 1) as nat, b, k - 1);
        assert(coef(u, 0) == 0);
        assert(coef(b, k) * 0 == 0);
    }
}

/// The product of `t - xs[j]` over the `j < m` other than `i`.
pub open spec fn prod_except(xs: Seq<int>, i: int, m: int, t: int) -> int
    decreases m,
{
    if m <= 0 {
        1
    } else if m - 1 == i {
        prod_except(xs, i, m - 1, t)
    } else {
        prod_except(xs, i, m - 1, t) * (t - xs[m - 1])
    }
}

/// The denominator of the Lagrange basis polynomial for point `i`.
pub open spec fn lagrange_denom(xs: Seq<int>, i: int) -> int {
    prod_except(xs, i, xs.len() as int, xs[i])
}

/// `w` is an inverse of `a` modulo the field order.
pub open spec fn is_inverse(a: int, w: int) -> bool {
    cong(a * w, 1)
}

/// `a` has an inverse modulo the field order.
pub open spec fn invertible(a: int) -> bool {
    exists|w: int| #[trigger] is_inverse(a, w)
}

/// Every difference of two of the points is invertible in the field (for
/// the prime field `Fr`, exactly when the points are pairwise distinct).
pub open spec fn distinct_points(xs: Seq<int>) -> bool {
    forall|i: int, j: int| 0 <= i < xs.len() && 0 <= j < xs.len() && i != j ==> #[trigger] invertible(xs[i] - xs[j])
}

/// A product of invertible values is invertible.
pub proof fn lemma_invertible_mul(a: int, b: int)
    requires
        invertible(a),
        invertible(b),
    ensures
        invertible(a * b),
{
    let wa = choose|w: int| is_inverse(a, w);
    let wb = choose|w: int| is_inverse(b, w);
    lemma_cong_mul(a * wa, 1, b * wb, 1);
    assert((a * b) * (wa * wb) == (a * wa) * (b * wb)) by (nonlinear_arith);
    assert(is_inverse(a * b, wa * wb));
}

/// An invertible value is not a multiple of the field order.
pub proof fn lemma_invertible_nonzero(a: int)
    requires
        invertible(a),
    ensures
        a % pr() != 0,
{
    let w = choose|w: int| is_inverse(a, w);
    if a % pr() == 0 {
        lemma_mul_mod_noop_left(a, w, pr());
        assert(0 * w == 0);
        lemma_small_mod(1nat, pr() as nat);
    }
}

/// An invertible factor can be cancelled from a product that vanishes.
pub proof fn lemma_invertible_cancel(a: int, b: int)
    requires
        invertible(a),
        cong(a * b, 0),
    ensures
        cong(b, 0),
{
    let w = choose|w: int| is_inverse(a, w);
    lemma_cong_mul(a * b, 0, w, w);
    lemma_cong_mul(a * w, 1, b, b);
    assert((a * b) * w == (a * w) * b) by (nonlinear_arith);
    assert(0 * w == 0);
    assert(1 * b == b);
}

/// The Lagrange denominators of pairwise distinct points are invertible.
pub proof fn lemma_prod_except_invertible(xs: Seq<int>, i: int, m: int)
    requires
        distinct_points(xs),
        0 <= i < xs.len(),
        m <= xs.len(),
    ensures
        invertible(prod_except(xs, i, m, xs[i])),
    decreases m,
{
    if m <= 0 {
        lemma_small_mod(1nat, pr() as nat);
        assert(is_inverse(1, 1));
    } else {
        lemma_prod_except_invertible(xs, i, m - 1);
        if m - 1 != i {
            assert(invertible(xs[i] - xs[m - 1]));
            lemma_invertible_mul(prod_except(xs, i, m - 1, xs[i]), xs[i] - xs[m - 1]);
        }
    }
}

/// A product over a range that includes `t`'s own point vanishes.
pub proof fn lemma_prod_except_vanishes(xs: Seq<int>, i: int, m: int, k: int)
    requires
        0 <= k < m,
        k != i,
    ensures
        prod_except(xs, i, m, xs[k]) == 0,
    decreases m,
{
    if m - 1 != k {
        lemma_prod_except_vanishes(xs, i, m - 1, k);
        if m - 1 != i {
            assert(0 * (xs[k] - xs[m - 1]) == 0) by (nonlinear_arith);
        }
    }
}

/// A polynomial whose coefficients are all zero is zero everywhere.
pub proof fn lemma_all_zero_evals_zero(s: Seq<int>, x: int)
    requires
        all_zero(s),
    ensures
        peval(s, x) == 0,
        eval_mod(s, x) == 0,
    decreases s.len(),
{
    if s.len() > 0 {
        lemma_all_zero_evals_zero(s.drop_first(), x);
        assert(x * 0 == 0) by (nonlinear_arith);
    }
}

/// `x` to the power `k`.
pub open spec fn xpow(x: int, k: nat) -> int
    decreases k,
{
    if k == 0 { 1 } else { x * xpow(x, (k - 1) as nat) }
}

/// The degree of a coefficient sequence: its length less one (zero when empty).
pub open spec fn sdeg(s: Seq<int>) -> nat {
    if s.len() == 0 { 0 } else { (s.len() - 1) as nat }
}

/// `a` and `b` are equal modulo the field order.
pub open spec fn cong(a: int, b: int) -> bool {
    a % pr() == b % pr()
}

pub proof fn lemma_cong_add(a: int, b: int, c: int, d: int)
    requires
        cong(a, b),
        cong(c, d),
    ensures
        cong(a + c, b + d),
{
    lemma_add_mod_noop(a, c, pr());
    lemma_add_mod_noop(b, d, pr());
}

pub proof fn lemma_cong_sub(a: int, b: int, c: int, d: int)
    requires
        cong(a, b),
        cong(c, d),
    ensures
        cong(a - c, b - d),
{
    lemma_sub_mod_noop(a, c, pr());
    lemma_sub_mod_noop(b, d, pr());
}

pub proof fn lemma_cong_mul(a: int, b: int, c: int, d: int)
    requires
        cong(a, b),
        cong(c, d),
    ensures
        cong(a * c, b * d),
{
    lemma_mul_mod_noop_general(a, c, pr());
    lemma_mul_mod_noop_general(b, d, pr());
}

/// Every integer is congruent to its remainder.
pub proof fn lemma_cong_mod(a: int)
    ensures
        cong(a % pr(), a),
        cong(a, a % pr()),
{
    lemma_mod_twice(a, pr());
}

/// Replacing coefficient `k` changes the value by the difference times `x^k`.
pub proof fn lemma_peval_update(s: Seq<int>, k: int, v: int, x: int)
    requires
        0 <= k < s.len(),
    ensures
        peval(s.update(k, v), x) == peval(s, x) + (v - s[k]) * xpow(x, k as nat),
    decreases s.len(),
{
    let u = s.update(k, v);
    if k == 0 {
        assert(u.drop_first() =~= s.drop_first());
    } else {
        assert(u.drop_first() =~= s.drop_first().update(k - 1, v));
        lemma_peval_update(s.drop_first(), k - 1, v, x);
        let e = peval(s.drop_first(), x);
        let w = xpow(x, (k - 1) as nat);
        assert(x * (e + (v - s[k]) * w) == x * e + (v - s[k]) * (x * w)) by (nonlinear_arith);
    }
}

/// Trailing zeros do not change the value.
pub proof fn lemma_peval_append_zeros(s: Seq<int>, m: nat, x: int)
    ensures
        peval(s + zeros(m), x) == peval(s, x),
    decreases m,
{
    if m > 0 {
        lemma_peval_append_zeros(s, (m - 1) as nat, x);
        assert(s + zeros(m) =~= (s + zeros((m - 1) as nat)).push(0));
        lemma_peval_push_zero(s + zeros((m - 1) as nat), x);
    }
}

/// Leading zeros multiply the value by a power of `x`.
pub proof fn lemma_peval_prepend_zeros(m: nat, t: Seq<int>, x: int)
    ensures
        peval(zeros(m) + t, x) == xpow(x, m) * peval(t, x),
    decreases m,
{
    if m == 0 {
        assert(zeros(0) + t =~= t);
    } else {
        assert((zeros(m) + t).drop_first() =~= zeros((m - 1) as nat) + t);
        lemma_peval_prepend_zeros((m - 1) as nat, t, x);
        let e = peval(t, x);
        let w = xpow(x, (m - 1) as nat);
        assert(x * (w * e) == (x * w) * e) by (nonlinear_arith);
    }
}

/// The quotient of `r` by `x - d` in synthetic division: coefficient `k` is
/// the value at `d` of the part of `r` above degree `k`.
pub open spec fn synth_quot(r: Seq<int>, d: int) -> Seq<int> {
    if r.len() == 0 {
        seq![]
    } else {
        Seq::new((r.len() - 1) as nat, |k: int| peval(r.subrange(k + 1, r.len() as int), d))
    }
}

/// `r(t) = (t - d) * q(t) + r(d)` for the synthetic quotient `q`.
pub proof fn lemma_synth_eval(r: Seq<int>, d: int, t: int)
    ensures
        peval(r, t) == (t - d) * peval(synth_quot(r, d), t) + peval(r, d),
    decreases r.len(),
{
    let m = r.len() as int;
    if m == 0 {
        assert(synth_quot(r, d) =~= Seq::<int>::empty());
        assert(peval(synth_quot(r, d), t) == 0);
        assert((t - d) * 0 == 0) by (nonlinear_arith);
    } else if m == 1 {
        assert(synth_quot(r, d) =~= Seq::<int>::empty());
        assert(peval(synth_quot(r, d), t) == 0);
        lemma_peval_single(r[0], t);
        lemma_peval_single(r[0], d);
        assert(r =~= seq![r[0]]);
        assert((t - d) * 0 == 0) by (nonlinear_arith);
    } else {
        let s = r.drop_first();
        let q = synth_quot(r, d);
        let q2 = synth_quot(s, d);
        assert(r.subrange(1, m) =~= s);
        assert(q.drop_first() =~= q2) by {
            assert forall|k: int| 0 <= k < q2.len() implies q.drop_first()[k] == q2[k] by {
                assert(r.subrange(k + 2, m) =~= s.subrange(k + 1, m - 1));
            }
        }
        lemma_synth_eval(s, d, t);
        let sd = peval(s, d);
        let st = peval(s, t);
        let qt = peval(q2, t);
        assert(q[0] == sd);
        assert(peval(q, t) == q[0] + t * peval(q.drop_first(), t));
        assert(peval(q, t) == sd + t * qt);
        assert(st == (t - d) * qt + sd);
        assert(r[0] + t * st == (t - d) * (sd + t * qt) + (r[0] + d * sd)) by (nonlinear_arith)
            requires
                st == (t - d) * qt + sd,
        ;
    }
}

/// Each coefficient of `r` is recovered from two consecutive tail values at `d`.
pub proof fn lemma_synth_coef(r: Seq<int>, d: int, k: int)
    requires
        0 <= k < r.len(),
    ensures
        r[k] == peval(r.subrange(k, r.len() as int), d) - d * peval(r.subrange(k + 1, r.len() as int), d),
{
    assert(r.subrange(k, r.len() as int).drop_first() =~= r.subrange(k + 1, r.len() as int));
}

/// A polynomial with fewer coefficients than it has roots among pairwise
/// distinct points is zero modulo the field order.
pub proof fn lemma_roots_force_zero(r: Seq<int>, ds: Seq<int>)
    requires
        r.len() <= ds.len(),
        distinct_points(ds),
        forall|i: int| 0 <= i < ds.len() ==> #[trigger] cong(peval(r, ds[i]), 0),
    ensures
        forall|k: int| 0 <= k < r.len() ==> #[trigger] cong(r[k], 0),
    decreases ds.len(),
{
    if r.len() > 0 {
        let n = ds.len() as int;
        let m = r.len() as int;
        let d = ds[n - 1];
        let q = synth_quot(r, d);
        let ds2 = ds.drop_last();
        assert(cong(peval(r, d), 0));
        assert forall|i: int| 0 <= i < ds2.len() implies #[trigger] cong(peval(q, ds2[i]), 0) by {
            lemma_synth_eval(r, d, ds[i]);
            assert(cong(peval(r, ds[i]), 0));
            let e = (ds[i] - d) * peval(q, ds[i]);
            lemma_cong_sub(peval(r, ds[i]), 0, peval(r, d), 0);
            assert(peval(r, ds[i]) - peval(r, d) == e);
            assert(invertible(ds[i] - ds[n - 1]));
            lemma_invertible_cancel(ds[i] - d, peval(q, ds[i]));
        }
        assert(distinct_points(ds2)) by {
            assert forall|i: int, j: int| 0 <= i < ds2.len() && 0 <= j < ds2.len() && i != j implies
                #[trigger] invertible(ds2[i] - ds2[j]) by {
                assert(invertible(ds[i] - ds[j]));
            }
        }
        lemma_roots_force_zero(q, ds2);
        assert forall|k: int| 0 <= k < m implies #[trigger] cong(r[k], 0) by {
            lemma_synth_coef(r, d, k);
            let hi = peval(r.subrange(k, m), d);
            let lo = peval(r.subrange(k + 1, m), d);
            if k == 0 {
                assert(r.subrange(0, m) =~= r);
            } else {
                assert(q[k - 1] == hi);
                assert(cong(q[k - 1], 0));
            }
            if k < m - 1 {
                assert(q[k] == lo);
                assert(cong(q[k], 0));
            } else {
                assert(r.subrange(k + 1, m) =~= Seq::<int>::empty());
            }
            assert(cong(hi, 0));
            assert(cong(lo, 0));
            lemma_cong_mul(d, d, lo, 0);
            assert(d * 0 == 0);
            lemma_cong_sub(hi, 0, d * lo, 0);
        }
    }
}

/// The inverse of `a` in the field: the `w` in `0..r` with `a * w = 1`
/// (when `a` is invertible).
pub open spec fn field_inv(a: int) -> int {
    choose|w: int| 0 <= w < pr() && #[trigger] is_inverse(a, w)
}

/// An inverse in `0..r` is the inverse.
pub proof fn lemma_field_inv_unique(a: int, w: int)
    requires
        0 <= w < pr(),
        is_inverse(a, w),
    ensures
        field_inv(a) == w,
        0 <= field_inv(a) < pr(),
        is_inverse(a, field_inv(a)),
{
    let v = field_inv(a);
    assert(0 <= v < pr() && is_inverse(a, v));
    // v = v * (a * w) = (v * a) * w = w, modulo the order
    lemma_cong_mul(v, v, a * w, 1);
    lemma_cong_mul(a * v, 1, w, w);
    assert(v * (a * w) == (a * v) * w) by (nonlinear_arith);
    assert(v * 1 == v && 1 * w == w);
    lemma_small_mod(v as nat, pr() as nat);
    lemma_small_mod(w as nat, pr() as nat);
}

/// `sum_{i < m} ys[i] * (1 / denom_i) * prod_{j != i} (x - xs[j])`: the
/// first `m` terms of the Lagrange interpolation formula at `x`.
pub open spec fn lagrange_sum(xs: Seq<int>, ys: Seq<int>, m: int, x: int) -> int
    decreases m,
{
    if m <= 0 {
        0
    } else {
        lagrange_sum(xs, ys, m - 1, x)
            + ys[m - 1] * field_inv(lagrange_denom(xs, m - 1)) * prod_except(xs, m - 1, xs.len() as int, x)
    }
}

/// The value at `x` of the polynomial of degree below `|xs|` through the
/// points `(xs[i], ys[i])`, by the Lagrange formula.
pub open spec fn lagrange_eval(xs: Seq<int>, ys: Seq<int>, x: int) -> int {
    lagrange_sum(xs, ys, xs.len() as int, x) % pr()
}

/// The Lagrange formula takes the value `ys[k]` at `xs[k]`.
pub proof fn lemma_lagrange_nodes(xs: Seq<int>, ys: Seq<int>, k: int)
    requires
        distinct_points(xs),
        ys.len() == xs.len(),
        0 <= k < xs.len(),
        forall|i: int| 0 <= i < ys.len() ==> 0 <= #[trigger] ys[i] < pr(),
    ensures
        lagrange_eval(xs, ys, xs[k]) == ys[k],
{
    lemma_lagrange_partial(xs, ys, k, xs.len() as int);
    lemma_small_mod(ys[k] as nat, pr() as nat);
}

proof fn lemma_lagrange_partial(xs: Seq<int>, ys: Seq<int>, k: int, m: int)
    requires
        distinct_points(xs),
        ys.len() == xs.len(),
        0 <= k < xs.len(),
        m <= xs.len(),
    ensures
        cong(lagrange_sum(xs, ys, m, xs[k]), if k < m { ys[k] } else { 0 }),
    decreases m,
{
    if m > 0 {
        lemma_lagrange_partial(xs, ys, k, m - 1);
        let i = m - 1;
        let pe = prod_except(xs, i, xs.len() as int, xs[k]);
        let prev = lagrange_sum(xs, ys, m - 1, xs[k]);
        let fi = field_inv(lagrange_denom(xs, i));
        if i == k {
            lemma_prod_except_invertible(xs, i, xs.len() as int);
            let w = choose|w: int| is_inverse(lagrange_denom(xs, i), w);
            lemma_cong_mod(w);
            lemma_cong_mul(lagrange_denom(xs, i), lagrange_denom(xs, i), w, w % pr());
            lemma_field_inv_unique(lagrange_denom(xs, i), w % pr());
            // ys[k] * fi * denom = ys[k] * (denom * fi) = ys[k]
            lemma_cong_mul(ys[k], ys[k], lagrange_denom(xs, i) * fi, 1);
            assert(ys[k] * fi * pe == ys[k] * (pe * fi)) by (nonlinear_arith);
            assert(ys[k] * 1 == ys[k]);
            lemma_cong_add(prev, 0, ys[k] * fi * pe, ys[k]);
        } else {
            lemma_prod_except_vanishes(xs, i, xs.len() as int, k);
            assert(ys[i] * fi * 0 == 0) by (nonlinear_arith);
            lemma_cong_add(prev, if k < m - 1 { ys[k] } else { 0 }, ys[i] * fi * pe, 0);
        }
    }
}

} // verus!
