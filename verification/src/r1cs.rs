//! R1CS (Rank-1 Constraint System) for the circuit `y = x^2 + x + 9`.
//!
//! Witness vector order: `[one, y, x, s1]`, where `s1 = x*x` is the
//! intermediate value for the multiplication gate.
//!
//! Constraint 1: `x * x = s1`
//! Constraint 2: `(9*one + x + s1) * one = y`, that is `s1 + x + 9 = y`
//!
//! A row is satisfied when `(A_row . w) * (B_row . w) == (C_row . w)`.

use vstd::prelude::*;
use vstd::arithmetic::div_mod::*;
use crate::finite_field::{Fe, fe_vals, i64_val, lemma_val_lt_modulus};
use crate::poly_math::{cong, pr, lemma_cong_add, lemma_cong_mod, lemma_cong_mul};

verus! {

broadcast use lemma_val_lt_modulus;

/// `sum_{k < n} row[k] * w[k]` over the integers.
pub open spec fn dot_upto(row: Seq<i64>, w: Seq<int>, n: int) -> int
    decreases n,
{
    if n <= 0 { 0 } else { dot_upto(row, w, n - 1) + row[n - 1] as int * w[n - 1] }
}

/// The dot product of a row with a witness, over their common length.
pub open spec fn row_dot(row: Seq<i64>, w: Seq<int>) -> int {
    dot_upto(row, w, if row.len() <= w.len() { row.len() as int } else { w.len() as int })
}

/// `(a . w) * (b . w) == (c . w)` in the field.
pub open spec fn row_holds(a: Seq<i64>, b: Seq<i64>, c: Seq<i64>, w: Seq<int>) -> bool {
    cong(row_dot(a, w) * row_dot(b, w), row_dot(c, w))
}

/// The witness that `build_witness` makes for `x`: `[1, y, x, x^2]` with `y = x^2 + x + 9`.
pub open spec fn witness_for(x: i64) -> Seq<int> {
    let xv = i64_val(x) as int;
    seq![1int, (xv * xv + xv + 9) % pr(), xv, (xv * xv) % pr()]
}

/// A constraint system: one row of `a`, `b` and `c` per constraint.
#[derive(Clone, Debug)]
pub struct R1cs {
    pub a: Vec<Vec<i64>>,
    pub b: Vec<Vec<i64>>,
    pub c: Vec<Vec<i64>>,
    pub num_vars: usize,
}

impl R1cs {
    /// Row `i` of the system holds for `w`.
    pub open spec fn row_ok(&self, i: int, w: Seq<int>) -> bool {
        row_holds(self.a@[i]@, self.b@[i]@, self.c@[i]@, w)
    }

    /// Every constraint holds for `w`.
    pub open spec fn satisfied_by(&self, w: Seq<int>) -> bool {
        forall|i: int| 0 <= i < self.a.len() ==> #[trigger] self.row_ok(i, w)
    }

    /// The matrices of the circuit `y = x^2 + x + 9`.
    pub open spec fn is_circuit(&self) -> bool {
        &&& self.num_vars == 4
        &&& self.a.len() == 2 && self.b.len() == 2 && self.c.len() == 2
        &&& self.a@[0]@ == seq![0i64, 0, 1, 0] && self.a@[1]@ == seq![9i64, 0, 1, 1]
        &&& self.b@[0]@ == seq![0i64, 0, 1, 0] && self.b@[1]@ == seq![1i64, 0, 0, 0]
        &&& self.c@[0]@ == seq![0i64, 0, 0, 1] && self.c@[1]@ == seq![0i64, 1, 0, 0]
    }

    /// The circuit from the paper working: `y = x^2 + x + 9`.
    pub fn circuit() -> (r: R1cs)
        ensures
            r.is_circuit(),
    {
        R1cs {
            a: vec![vec![0, 0, 1, 0], vec![9, 0, 1, 1]],
            b: vec![vec![0, 0, 1, 0], vec![1, 0, 0, 0]],
            c: vec![vec![0, 0, 0, 1], vec![0, 1, 0, 0]],
            num_vars: 4,
        }
    }

    /// The number of constraints.
    pub fn num_constraints(&self) -> (n: usize)
        ensures
            n == self.a.len(),
    {
        self.a.len()
    }

    fn dot(row: &[i64], w: &[Fe]) -> (r: Fe)
        ensures
            r.val() == row_dot(row@, fe_vals(w@)) % pr(),
    {
        let n: usize = if row.len() <= w.len() { row.len() } else { w.len() };
        let ghost wv = fe_vals(w@);
        let mut acc = Fe::zero();
        let mut k: usize = 0;
        assert(0int % pr() == 0);
        while k < n
            invariant
                k <= n,
                n <= row.len(),
                n <= w.len(),
                wv == fe_vals(w@),
                acc.val() == dot_upto(row@, wv, k as int) % pr(),
            decreases n - k,
        {
            let c = Fe::from_i64(row[k]);
            let term = c.mul(&w[k]);
            let ghost old = acc.val() as int;
            acc = acc.add(&term);
            proof {
                let d = dot_upto(row@, wv, k as int);
                let rk = row@[k as int] as int;
                assert(wv[k as int] == w@[k as int].val());
                lemma_cong_mod(rk);
                lemma_cong_mul(c.val() as int, rk, wv[k as int], wv[k as int]);
                lemma_cong_mod((c.val() * w@[k as int].val()) as int);
                lemma_cong_mod(d);
                lemma_cong_add(old, d, term.val() as int, rk * wv[k as int]);
                lemma_cong_mod(old + term.val() as int);
                lemma_cong_mod(d + rk * wv[k as int]);
                lemma_small_mod(acc.val(), pr() as nat);
            }
            k += 1;
        }
        acc
    }

    /// Checks `(A_i . w) * (B_i . w) == (C_i . w)` for every constraint row.
    /// Returns `Err` with the first failing row index and both sides if any
    /// constraint doesn't hold.
    pub fn is_satisfied(&self, w: &[Fe]) -> (res: Result<(), (usize, Fe, Fe)>)
        requires
            w.len() == self.num_vars,
            self.b.len() >= self.a.len(),
            self.c.len() >= self.a.len(),
        ensures
            res is Ok <==> self.satisfied_by(fe_vals(w@)),
            res matches Err((i, lhs, rhs)) ==> {
                &&& i < self.a.len()
                &&& !self.row_ok(i as int, fe_vals(w@))
                &&& forall|k: int| 0 <= k < i ==> #[trigger] self.row_ok(k, fe_vals(w@))
                &&& lhs.val() == (row_dot(self.a@[i as int]@, fe_vals(w@)) * row_dot(self.b@[i as int]@, fe_vals(w@))) % pr()
                &&& rhs.val() == row_dot(self.c@[i as int]@, fe_vals(w@)) % pr()
            },
    {
        let ghost wv = fe_vals(w@);
        let n = self.num_constraints();
        let mut i: usize = 0;
        while i < n
            invariant
                i <= n,
                n == self.a.len(),
                self.b.len() >= self.a.len(),
                self.c.len() >= self.a.len(),
                wv == fe_vals(w@),
                forall|k: int| 0 <= k < i ==> #[trigger] self.row_ok(k, wv),
            decreases n - i,
        {
            let av = Self::dot(self.a[i].as_slice(), w);
            let bv = Self::dot(self.b[i].as_slice(), w);
            let cv = Self::dot(self.c[i].as_slice(), w);
            let lhs = av.mul(&bv);
            proof {
                let da = row_dot(self.a@[i as int]@, wv);
                let db = row_dot(self.b@[i as int]@, wv);
                lemma_mul_mod_noop_general(da, db, pr());
            }
            if !lhs.equals(&cv) {
                assert(!self.row_ok(i as int, wv));
                assert(!self.satisfied_by(wv));
                return Err((i, lhs, cv));
            }
            i += 1;
        }
        Ok(())
    }

    /// Builds `[one, y, x, s1]` for a given `x`, computing `y = x^2 + x + 9`
    /// and `s1 = x^2` along the way.
    pub fn build_witness(&self, x: i64) -> (w: Vec<Fe>)
        ensures
            fe_vals(w@) == witness_for(x),
            fe_vals(w@) == seq![
                1int,
                ((x as int) * (x as int) + (x as int) + 9) % pr(),
                (x as int) % pr(),
                ((x as int) * (x as int)) % pr(),
            ],
    {
        let one = Fe::one();
        let xf = Fe::from_i64(x);
        let s1 = xf.mul(&xf);
        let y = s1.add(&xf).add(&Fe::from_u64(9));
        proof {
            let xv = xf.val() as int;
            lemma_cong_mod(xv * xv);
            lemma_cong_add(s1.val() as int, xv * xv, xv, xv);
            lemma_cong_mod(s1.val() as int + xv);
            lemma_cong_add((s1.val() as int + xv) % pr(), xv * xv + xv, 9, 9);
            lemma_cong_mod((s1.val() as int + xv) % pr() + 9);
            lemma_small_mod(y.val(), pr() as nat);
        }
        let w = vec![one, y, xf, s1];
        assert(fe_vals(w@) =~= witness_for(x));
        proof {
            lemma_witness_for_values(x);
        }
        w
    }
}

/// The witness for `x` holds, in `Fr`: one, `x^2 + x + 9`, `x` and `x^2`,
/// with `x` the given integer.
pub proof fn lemma_witness_for_values(x: i64)
    ensures
        witness_for(x) == seq![
            1int,
            ((x as int) * (x as int) + (x as int) + 9) % pr(),
            (x as int) % pr(),
            ((x as int) * (x as int)) % pr(),
        ],
{
    let xi = x as int;
    let xv = i64_val(x) as int;
    assert(xv == xi % pr());
    lemma_cong_mod(xi);
    lemma_cong_mul(xv, xi, xv, xi);
    lemma_cong_add(xv * xv, xi * xi, xv, xi);
    lemma_cong_add(xv * xv + xv, xi * xi + xi, 9, 9);
    assert(witness_for(x) =~= seq![1int, (xi * xi + xi + 9) % pr(), xi % pr(), (xi * xi) % pr()]);
}

/// The dot product of a row of four with a witness of four, written out.
proof fn lemma_dot4(row: Seq<i64>, w: Seq<int>)
    requires
        row.len() == 4,
        w.len() == 4,
    ensures
        row_dot(row, w) == row[0] * w[0] + row[1] * w[1] + row[2] * w[2] + row[3] * w[3],
        forall|k: int| 0 <= k < 4 && row[k] == 0 ==> #[trigger] (row[k] * w[k]) == 0,
        forall|k: int| 0 <= k < 4 && row[k] == 1 ==> #[trigger] (row[k] * w[k]) == w[k],
{
    reveal_with_fuel(dot_upto, 5);
}

/// What the circuit's two constraints say of a witness `[one, y, x, s1]`:
/// `x * x = s1` and `(9*one + x + s1) * one = y`, in the field.
pub proof fn lemma_circuit_constraints(r: R1cs, w: Seq<int>)
    requires
        r.is_circuit(),
        w.len() == 4,
    ensures
        r.satisfied_by(w) <==> (cong(w[2] * w[2], w[3]) && cong((9 * w[0] + w[2] + w[3]) * w[0], w[1])),
{
    lemma_dot4(r.a@[0]@, w);
    lemma_dot4(r.b@[0]@, w);
    lemma_dot4(r.c@[0]@, w);
    lemma_dot4(r.a@[1]@, w);
    lemma_dot4(r.b@[1]@, w);
    lemma_dot4(r.c@[1]@, w);
    assert(row_dot(r.a@[0]@, w) == w[2]);
    assert(row_dot(r.b@[0]@, w) == w[2]);
    assert(row_dot(r.c@[0]@, w) == w[3]);
    assert(row_dot(r.a@[1]@, w) == 9 * w[0] + w[2] + w[3]);
    assert(row_dot(r.b@[1]@, w) == w[0]);
    assert(row_dot(r.c@[1]@, w) == w[1]);
    if r.satisfied_by(w) {
        assert(r.row_ok(0, w));
        assert(r.row_ok(1, w));
    }
    if cong(w[2] * w[2], w[3]) && cong((9 * w[0] + w[2] + w[3]) * w[0], w[1]) {
        assert forall|i: int| 0 <= i < r.a.len() implies #[trigger] r.row_ok(i, w) by {
            if i == 0 {} else {}
        }
    }
}

/// Every witness that `build_witness` makes satisfies the circuit.
pub proof fn lemma_witness_satisfies_circuit(r: R1cs, x: i64)
    requires
        r.is_circuit(),
    ensures
        r.satisfied_by(witness_for(x)),
{
    let w = witness_for(x);
    let xv = i64_val(x) as int;
    lemma_cong_mod(xv * xv);
    lemma_cong_mod(xv * xv + xv + 9);
    lemma_cong_add(9 + xv, 9 + xv, (xv * xv) % pr(), xv * xv);
    assert((9 * 1 + xv + (xv * xv) % pr()) * 1 == 9 + xv + (xv * xv) % pr());
    lemma_circuit_constraints(r, w);
}

/// A reduced witness with `one = 1` that satisfies the circuit is the one
/// that `build_witness` makes for its `x`: `s1 = x^2` and `y = x^2 + x + 9`.
pub proof fn lemma_circuit_determines_witness(r: R1cs, w: Seq<int>)
    requires
        r.is_circuit(),
        w.len() == 4,
        w[0] == 1,
        forall|k: int| 0 <= k < 4 ==> 0 <= #[trigger] w[k] < pr(),
        r.satisfied_by(w),
    ensures
        w[3] == (w[2] * w[2]) % pr(),
        w[1] == (w[2] * w[2] + w[2] + 9) % pr(),
{
    lemma_circuit_constraints(r, w);
    let x = w[2];
    assert(0 <= w[1] < pr());
    assert(0 <= w[3] < pr());
    lemma_small_mod(w[3] as nat, pr() as nat);
    lemma_small_mod(w[1] as nat, pr() as nat);
    assert((9 * 1 + x + w[3]) * 1 == 9 + x + w[3]);
    lemma_cong_mod(x * x);
    lemma_cong_add(9 + x, 9 + x, w[3], x * x);
    assert(9 + x + x * x == x * x + x + 9);
}

} // verus!
