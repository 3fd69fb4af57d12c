use vstd::prelude::*;
use crate::frac::{
    fadd, feq, fmul, fnz, fr, fsub, fzero, lemma_div_value, lemma_fadd_cancel, lemma_fadd_cong,
    lemma_fadd_sub, lemma_fadd_zero, lemma_feq_trans, lemma_feq_zero, lemma_fmul_assoc,
    lemma_fmul_cancel, lemma_fmul_comm, lemma_fmul_cong, lemma_fmul_distrib, lemma_fnz_ops,
    lemma_fsub_add_cancel, lemma_fsub_add_sub, lemma_fsub_cong, lemma_fsub_mul, lemma_fsub_sub,
    lemma_mul_value, lemma_sub_value, Frac,
};
use crate::echelon::{
    cleared_below, echelon, lead, lead_from, lemma_elim_below_clears, lemma_elim_from_echelon,
    lemma_find_pivot_none, lemma_find_pivot_some,
};
use crate::gauss::{
    combine_rows, elim_below, elim_from, elim_ops, find_pivot, gauss_spec, initial_step,
    law_solution_kind, law_steps_keep_shape, multiplier_text, snapshot, step_keeps_shape, swap_label_spec, swap_ops,
    swap_rows, SpecStep,
};
use crate::matrix::{
    column_numbers, fill_row, from_equations_spec, lemma_variable_numbers, shaped, total_terms, variable_numbers,
    SpecMatrix,
};
use crate::parser::SpecTerms;
use crate::names::{assoc_get, assoc_put, lemma_assoc_get_put, lemma_name_lt_irreflexive, name_lt};
use crate::solution::{
    back_substitute, basic_columns, inconsistent, is_one_spec, lemma_free_columns, pivot_rows, row_inconsistent,
    rows_shaped, solution_spec, subst_rhs, SpecSolution,
};
use crate::rational::{
    spec_div, spec_mul, spec_neg, spec_sub, wf, zero_spec, Rational,
};

verus! {

// ---------------------------------------------------------------------------
// Rows as linear equations
// ---------------------------------------------------------------------------

/// `sum(row[t] * x[t])` over the columns `j..k`, as a fraction.
pub open spec fn lin(row: Seq<Rational>, x: Seq<Frac>, j: nat, k: nat) -> Frac
    decreases k - j,
{
    if j >= k {
        fzero()
    } else {
        fadd(fmul(fr(row[j as int]), x[j as int]), lin(row, x, j + 1, k))
    }
}

/// The values `x` (one per column) satisfy the equation `row`: the coefficients
/// `row[0..m]` times the values add up to the right-hand side `row[m]`.
pub open spec fn satisfies(row: Seq<Rational>, x: Seq<Frac>, m: nat) -> bool {
    feq(lin(row, x, 0, m), fr(row[m as int]))
}

/// The values satisfy every row of the matrix.
pub open spec fn solves(d: Seq<Seq<Rational>>, x: Seq<Frac>, n: nat, m: nat) -> bool {
    forall|i: int| 0 <= i < n ==> satisfies(#[trigger] d[i], x, m)
}

/// Every entry of the matrix has a non-zero denominator.
pub open spec fn dens_nz(d: Seq<Seq<Rational>>, n: nat, m: nat) -> bool {
    forall|i: int, j: int| 0 <= i < n && 0 <= j <= m ==> (#[trigger] d[i][j]).den != 0
}

/// Every value has a non-zero denominator.
pub open spec fn vec_nz(x: Seq<Frac>, m: nat) -> bool {
    &&& x.len() == m
    &&& forall|j: int| 0 <= j < m ==> fnz(#[trigger] x[j])
}

/// The first `k` values have non-zero denominators.
pub open spec fn frac_nz(x: Seq<Frac>, k: nat) -> bool {
    &&& x.len() >= k
    &&& forall|j: int| 0 <= j < k ==> fnz(#[trigger] x[j])
}

/// The fractions the rationals denote.
pub open spec fn frs(x: Seq<Rational>) -> Seq<Frac> {
    x.map_values(|r: Rational| fr(r))
}

pub(crate) proof fn lemma_frs_nz(x: Seq<Rational>, k: nat)
    requires
        row_nz(x, k),
    ensures
        frs(x).len() == x.len(),
        frac_nz(frs(x), k),
        forall|j: int| 0 <= j < x.len() ==> #[trigger] frs(x)[j] == fr(x[j]),
{
}

pub open spec fn row_nz(row: Seq<Rational>, k: nat) -> bool {
    &&& row.len() >= k
    &&& forall|j: int| 0 <= j < k ==> (#[trigger] row[j]).den != 0
}

pub open spec fn minus_one() -> Frac {
    (-1, 1)
}

// ---------------------------------------------------------------------------
// Facts about `lin`
// ---------------------------------------------------------------------------

pub(crate) proof fn lemma_lin_nz(row: Seq<Rational>, x: Seq<Frac>, j: nat, k: nat)
    requires
        row_nz(row, k),
        frac_nz(x, k),
    ensures
        fnz(lin(row, x, j, k)),
    decreases k - j,
{
    if j < k {
        lemma_lin_nz(row, x, j + 1, k);
        assert(fnz(fr(row[j as int])) && fnz(x[j as int]));
        lemma_fnz_ops(fr(row[j as int]), x[j as int]);
        lemma_fnz_ops(fmul(fr(row[j as int]), x[j as int]), lin(row, x, j + 1, k));
    }
}

/// `lin` only reads the values of the columns it sums over.
pub(crate) proof fn lemma_lin_agree(row: Seq<Rational>, x: Seq<Frac>, y: Seq<Frac>, j: nat, k: nat)
    requires
        forall|t: int| j <= t < k ==> #[trigger] x[t] == y[t],
    ensures
        lin(row, x, j, k) == lin(row, y, j, k),
    decreases k - j,
{
    if j < k {
        assert(x[j as int] == y[j as int]);
        lemma_lin_agree(row, x, y, j + 1, k);
    }
}

/// Equal values give equal sums.
pub(crate) proof fn lemma_lin_cong(row: Seq<Rational>, x: Seq<Frac>, y: Seq<Frac>, j: nat, k: nat)
    requires
        row_nz(row, k),
        frac_nz(x, k),
        frac_nz(y, k),
        forall|t: int| j <= t < k ==> feq((#[trigger] x[t]), y[t]),
    ensures
        feq(lin(row, x, j, k), lin(row, y, j, k)),
    decreases k - j,
{
    if j < k {
        lemma_lin_cong(row, x, y, j + 1, k);
        let rj = fr(row[j as int]);
        assert(feq(rj, rj));
        assert(feq(x[j as int], y[j as int]));
        lemma_fmul_cong(rj, rj, x[j as int], y[j as int]);
        lemma_fadd_cong(fmul(rj, x[j as int]), fmul(rj, y[j as int]), lin(row, x, j + 1, k), lin(row, y, j + 1, k));
    }
}

/// Columns with a zero coefficient add nothing.
pub(crate) proof fn lemma_lin_zero_prefix(row: Seq<Rational>, x: Seq<Frac>, j: nat, c: nat, k: nat)
    requires
        j <= c <= k,
        row_nz(row, k),
        frac_nz(x, k),
        forall|t: int| j <= t < c ==> (#[trigger] row[t]).num == 0,
    ensures
        feq(lin(row, x, j, k), lin(row, x, c, k)),
    decreases c - j,
{
    lemma_lin_nz(row, x, c, k);
    if j < c {
        lemma_lin_zero_prefix(row, x, j + 1, c, k);
        lemma_lin_nz(row, x, j + 1, k);
        let t = fmul(fr(row[j as int]), x[j as int]);
        assert(t.0 == 0) by (nonlinear_arith)
            requires
                t.0 == row[j as int].num * x[j as int].0,
                row[j as int].num == 0,
        ;
        lemma_fnz_ops(fr(row[j as int]), x[j as int]);
        lemma_fadd_zero(t, lin(row, x, j + 1, k));
        lemma_feq_trans(lin(row, x, j, k), lin(row, x, j + 1, k), lin(row, x, c, k));
    }
}

/// A row whose coefficients are all zero sums to zero.
pub(crate) proof fn lemma_lin_zero_row(row: Seq<Rational>, x: Seq<Frac>, j: nat, k: nat)
    requires
        forall|t: int| j <= t < k ==> (#[trigger] row[t]).num == 0,
    ensures
        lin(row, x, j, k).0 == 0,
    decreases k - j,
{
    if j < k {
        lemma_lin_zero_row(row, x, j + 1, k);
        let t = fmul(fr(row[j as int]), x[j as int]);
        let l = lin(row, x, j + 1, k);
        assert(t.0 == 0) by (nonlinear_arith)
            requires
                t.0 == row[j as int].num * x[j as int].0,
                row[j as int].num == 0,
        ;
        assert(t.0 * l.1 + l.0 * t.1 == 0) by (nonlinear_arith)
            requires
                t.0 == 0,
                l.0 == 0,
        ;
    }
}

/// Linearity: where each coefficient of `c` is `P * a[t] - E * b[t]`, the sum over
/// `c` is `P * (sum over a) - E * (sum over b)`.
pub(crate) proof fn lemma_lin_comb(
    c: Seq<Rational>,
    a: Seq<Rational>,
    b: Seq<Rational>,
    y: Seq<Frac>,
    pv: Frac,
    e: Frac,
    j: nat,
    k: nat,
)
    requires
        row_nz(a, k),
        row_nz(b, k),
        row_nz(c, k),
        frac_nz(y, k),
        fnz(pv),
        fnz(e),
        forall|t: int| j <= t < k ==> feq(fr(#[trigger] c[t]), fsub(fmul(pv, fr(a[t])), fmul(e, fr(b[t])))),
    ensures
        feq(lin(c, y, j, k), fsub(fmul(pv, lin(a, y, j, k)), fmul(e, lin(b, y, j, k)))),
    decreases k - j,
{
    if j >= k {
        assert(fmul(pv, fzero()).0 == 0);
        assert(fmul(e, fzero()).0 == 0);
        lemma_fnz_ops(pv, fzero());
        lemma_fnz_ops(e, fzero());
        lemma_fnz_ops(fmul(pv, fzero()), fmul(e, fzero()));
        let r = fsub(fmul(pv, fzero()), fmul(e, fzero()));
        assert(r.0 == 0) by (nonlinear_arith)
            requires
                r == fsub(fmul(pv, fzero()), fmul(e, fzero())),
                fmul(pv, fzero()).0 == 0,
                fmul(e, fzero()).0 == 0,
        ;
        assert(feq(fzero(), r));
    } else {
        lemma_lin_comb(c, a, b, y, pv, e, j + 1, k);
        let cj = fr(c[j as int]);
        let aj = fr(a[j as int]);
        let bj = fr(b[j as int]);
        let yj = y[j as int];
        let la = lin(a, y, j + 1, k);
        let lb = lin(b, y, j + 1, k);
        let lc = lin(c, y, j + 1, k);
        lemma_lin_nz(a, y, j + 1, k);
        lemma_lin_nz(b, y, j + 1, k);
        lemma_lin_nz(c, y, j + 1, k);
        assert(fnz(cj) && fnz(aj) && fnz(bj) && fnz(yj));
        lemma_fnz_ops(pv, aj);
        lemma_fnz_ops(e, bj);
        lemma_fnz_ops(fmul(pv, aj), fmul(e, bj));
        lemma_fnz_ops(fsub(fmul(pv, aj), fmul(e, bj)), yj);
        lemma_fnz_ops(fmul(pv, aj), yj);
        lemma_fnz_ops(fmul(e, bj), yj);
        lemma_fnz_ops(aj, yj);
        lemma_fnz_ops(bj, yj);
        lemma_fnz_ops(pv, fmul(aj, yj));
        lemma_fnz_ops(e, fmul(bj, yj));
        // the new term: c[j]*y[j] == P*(a[j]*y[j]) - E*(b[j]*y[j])
        let t1 = fmul(fsub(fmul(pv, aj), fmul(e, bj)), yj);
        let t2 = fsub(fmul(fmul(pv, aj), yj), fmul(fmul(e, bj), yj));
        let t3 = fsub(fmul(pv, fmul(aj, yj)), fmul(e, fmul(bj, yj)));
        assert(feq(yj, yj));
        lemma_fmul_cong(cj, fsub(fmul(pv, aj), fmul(e, bj)), yj, yj);
        lemma_fsub_mul(fmul(pv, aj), fmul(e, bj), yj);
        lemma_fmul_assoc(pv, aj, yj);
        lemma_fmul_assoc(e, bj, yj);
        lemma_fsub_cong(fmul(fmul(pv, aj), yj), fmul(pv, fmul(aj, yj)), fmul(fmul(e, bj), yj), fmul(e, fmul(bj, yj)));
        lemma_fnz_ops(fmul(fmul(pv, aj), yj), fmul(fmul(e, bj), yj));
        lemma_feq_trans(fmul(cj, yj), t1, t2);
        lemma_feq_trans(fmul(cj, yj), t2, t3);
        // the sums
        let u = fmul(pv, fmul(aj, yj));
        let v = fmul(e, fmul(bj, yj));
        let w = fmul(pv, la);
        let z = fmul(e, lb);
        lemma_fnz_ops(pv, la);
        lemma_fnz_ops(e, lb);
        lemma_fadd_cong(fmul(cj, yj), t3, lc, fsub(w, z));
        lemma_fsub_add_sub(u, v, w, z);
        lemma_fmul_distrib(pv, fmul(aj, yj), la);
        lemma_fmul_distrib(e, fmul(bj, yj), lb);
        lemma_fsub_cong(fadd(u, w), fmul(pv, lin(a, y, j, k)), fadd(v, z), fmul(e, lin(b, y, j, k)));
        lemma_fnz_ops(u, v);
        lemma_fnz_ops(w, z);
        lemma_fnz_ops(t3, fsub(w, z));
        lemma_fnz_ops(u, w);
        lemma_fnz_ops(v, z);
        lemma_fnz_ops(fadd(u, w), fadd(v, z));
        lemma_feq_trans(lin(c, y, j, k), fadd(t3, fsub(w, z)), fsub(fadd(u, w), fadd(v, z)));
        lemma_feq_trans(lin(c, y, j, k), fsub(fadd(u, w), fadd(v, z)), fsub(fmul(pv, lin(a, y, j, k)), fmul(e, lin(b, y, j, k))));
    }
}

/// Appending the value `-1` for the right-hand side column turns the sum into the
/// residual `sum(row[t] * x[t]) - row[m]`.
pub(crate) proof fn lemma_lin_ext(row: Seq<Rational>, x: Seq<Frac>, j: nat, m: nat)
    requires
        j <= m,
        row_nz(row, m + 1),
        vec_nz(x, m),
    ensures
        feq(lin(row, x.push(minus_one()), j, m + 1), fsub(lin(row, x, j, m), fr(row[m as int]))),
        fnz(lin(row, x.push(minus_one()), j, m + 1)),
    decreases m - j,
{
    let xe = x.push(minus_one());
    assert(frac_nz(xe, m + 1));
    lemma_lin_nz(row, xe, j, m + 1);
    let b = fr(row[m as int]);
    if j == m {
        assert(xe[m as int] == minus_one());
        let l = lin(row, xe, m, m + 1);
        assert(lin(row, xe, m + 1, m + 1) == fzero());
        assert(xe[m as int] == (-1int, 1int));
        let t = fmul(b, (-1int, 1int));
        assert(l == fadd(t, fzero()));
        let f = fsub(fzero(), b);
        assert(l.0 == f.0 && l.1 == f.1) by (nonlinear_arith)
            requires
                t == (b.0 * -1, b.1 * 1),
                l == (t.0 * 1 + 0 * t.1, t.1 * 1),
                f == (0 * b.1 - b.0 * 1, 1 * b.1),
        ;
    } else {
        lemma_lin_ext(row, x, j + 1, m);
        assert(xe[j as int] == x[j as int]);
        let t = fmul(fr(row[j as int]), x[j as int]);
        let l1 = lin(row, x, j + 1, m);
        assert(t == fmul(fr(row[j as int]), xe[j as int]));
        assert(feq(t, t));
        lemma_fadd_cong(t, t, lin(row, xe, j + 1, m + 1), fsub(l1, b));
        lemma_fadd_sub(t, l1, b);
        assert(fnz(fr(row[j as int])) && fnz(x[j as int]) && fnz(b));
        lemma_fnz_ops(fr(row[j as int]), x[j as int]);
        lemma_lin_nz(row, x, j + 1, m);
        lemma_fnz_ops(l1, b);
        lemma_fnz_ops(t, fsub(l1, b));
        lemma_feq_trans(lin(row, xe, j, m + 1), fadd(t, fsub(l1, b)), fsub(fadd(t, l1), b));
    }
}

/// A row is satisfied exactly when its residual (the sum with `-1` appended for the
/// right-hand side) is zero.
pub(crate) proof fn lemma_residual(row: Seq<Rational>, x: Seq<Frac>, m: nat)
    requires
        row_nz(row, m + 1),
        vec_nz(x, m),
    ensures
        satisfies(row, x, m) <==> lin(row, x.push(minus_one()), 0, m + 1).0 == 0,
        fnz(lin(row, x.push(minus_one()), 0, m + 1)),
{
    lemma_lin_ext(row, x, 0, m);
    let l = lin(row, x, 0, m);
    let b = fr(row[m as int]);
    lemma_lin_nz(row, x, 0, m);
    assert(fnz(b));
    lemma_fnz_ops(l, b);
    lemma_feq_zero(lin(row, x.push(minus_one()), 0, m + 1), fsub(l, b));
}

// ---------------------------------------------------------------------------
// One elimination step keeps every solution
// ---------------------------------------------------------------------------

/// Each entry `combine_rows` computes is `pv * rr[t] - e * rp[t]`, exactly.
pub(crate) proof fn lemma_combine_value(rr: Seq<Rational>, rp: Seq<Rational>, pv: Rational, e: Rational, j: nat, m: nat)
    requires
        rr.len() == m + 1,
        rp.len() == m + 1,
    ensures
        combine_rows(rr, rp, pv, e, j, m) matches Some(nr) ==> {
            &&& nr.len() == m + 1
            &&& forall|t: int| 0 <= t < j ==> #[trigger] nr[t] == rr[t]
            &&& forall|t: int|
                j <= t <= m ==> (#[trigger] nr[t]).den != 0 && feq(
                    fr(nr[t]),
                    fsub(fmul(fr(pv), fr(rr[t])), fmul(fr(e), fr(rp[t]))),
                )
        },
    decreases m + 1 - j,
{
    if j <= m {
        lemma_mul_value(pv, rr[j as int]);
        lemma_mul_value(e, rp[j as int]);
        match spec_mul(pv, rr[j as int]) {
            Some(a) => match spec_mul(e, rp[j as int]) {
                Some(b) => {
                    lemma_sub_value(a, b);
                    match spec_sub(a, b) {
                        Some(v) => {
                            let r2 = rr.update(j as int, v);
                            lemma_combine_value(r2, rp, pv, e, j + 1, m);
                            let want = fsub(fmul(fr(pv), fr(rr[j as int])), fmul(fr(e), fr(rp[j as int])));
                            lemma_fsub_cong(fr(a), fmul(fr(pv), fr(rr[j as int])), fr(b), fmul(fr(e), fr(rp[j as int])));
                            lemma_fnz_ops(fr(a), fr(b));
                            lemma_feq_trans(fr(v), fsub(fr(a), fr(b)), want);
                            match combine_rows(r2, rp, pv, e, j + 1, m) {
                                Some(nr) => {
                                    assert(nr[j as int] == v);
                                    assert forall|t: int|
                                        j <= t <= m implies (#[trigger] nr[t]).den != 0 && feq(
                                            fr(nr[t]),
                                            fsub(fmul(fr(pv), fr(rr[t])), fmul(fr(e), fr(rp[t]))),
                                        ) by {
                                        if t > j {
                                            assert(r2[t] == rr[t]);
                                        }
                                    }
                                },
                                None => {},
                            }
                        },
                        None => {},
                    }
                },
                None => {},
            },
            None => {},
        }
    }
}

/// If the combined row `c = pv * a - e * b` (entrywise, `pv != 0`) and the row `b`
/// are satisfied, so is `a`.
pub(crate) proof fn lemma_row_back(c: Seq<Rational>, a: Seq<Rational>, b: Seq<Rational>, pv: Rational, e: Rational, x: Seq<Frac>, m: nat)
    requires
        row_nz(a, m + 1),
        row_nz(b, m + 1),
        row_nz(c, m + 1),
        vec_nz(x, m),
        pv.den != 0,
        e.den != 0,
        pv.num != 0,
        forall|t: int| 0 <= t <= m ==> feq(fr(#[trigger] c[t]), fsub(fmul(fr(pv), fr(a[t])), fmul(fr(e), fr(b[t])))),
        satisfies(c, x, m),
        satisfies(b, x, m),
    ensures
        satisfies(a, x, m),
{
    let xe = x.push(minus_one());
    assert(frac_nz(xe, m + 1));
    lemma_lin_comb(c, a, b, xe, fr(pv), fr(e), 0, m + 1);
    lemma_residual(a, x, m);
    lemma_residual(b, x, m);
    lemma_residual(c, x, m);
    let ra = lin(a, xe, 0, m + 1);
    let rb = lin(b, xe, 0, m + 1);
    let rc = lin(c, xe, 0, m + 1);
    let q = fsub(fmul(fr(pv), ra), fmul(fr(e), rb));
    lemma_fnz_ops(fr(pv), ra);
    lemma_fnz_ops(fr(e), rb);
    lemma_fnz_ops(fmul(fr(pv), ra), fmul(fr(e), rb));
    lemma_feq_zero(rc, q);
    assert(q.0 == 0);
    assert(ra.0 == 0) by (nonlinear_arith)
        requires
            q.0 == (pv.num * ra.0) * (e.den * rb.1) - (e.num * rb.0) * (pv.den * ra.1),
            q.0 == 0,
            rb.0 == 0,
            pv.num != 0,
            e.den != 0,
            rb.1 != 0,
    ;
}

/// If the rows `a` and `b` are satisfied, so is their combination `c = pv * a - e * b`
/// (entrywise).
pub(crate) proof fn lemma_row_forward(c: Seq<Rational>, a: Seq<Rational>, b: Seq<Rational>, pv: Rational, e: Rational, x: Seq<Frac>, m: nat)
    requires
        row_nz(a, m + 1),
        row_nz(b, m + 1),
        row_nz(c, m + 1),
        vec_nz(x, m),
        pv.den != 0,
        e.den != 0,
        forall|t: int| 0 <= t <= m ==> feq(fr(#[trigger] c[t]), fsub(fmul(fr(pv), fr(a[t])), fmul(fr(e), fr(b[t])))),
        satisfies(a, x, m),
        satisfies(b, x, m),
    ensures
        satisfies(c, x, m),
{
    let xe = x.push(minus_one());
    assert(frac_nz(xe, m + 1));
    lemma_lin_comb(c, a, b, xe, fr(pv), fr(e), 0, m + 1);
    lemma_residual(a, x, m);
    lemma_residual(b, x, m);
    lemma_residual(c, x, m);
    let ra = lin(a, xe, 0, m + 1);
    let rb = lin(b, xe, 0, m + 1);
    let rc = lin(c, xe, 0, m + 1);
    let q = fsub(fmul(fr(pv), ra), fmul(fr(e), rb));
    lemma_fnz_ops(fr(pv), ra);
    lemma_fnz_ops(fr(e), rb);
    lemma_fnz_ops(fmul(fr(pv), ra), fmul(fr(e), rb));
    assert(q.0 == 0) by (nonlinear_arith)
        requires
            q.0 == (pv.num * ra.0) * (e.den * rb.1) - (e.num * rb.0) * (pv.den * ra.1),
            ra.0 == 0,
            rb.0 == 0,
    ;
    lemma_feq_zero(rc, q);
}

/// An entry that is zero in both rows stays zero in their combination.
pub(crate) proof fn lemma_zero_comb(pv: Rational, e: Rational, a: Rational, b: Rational)
    requires
        a.num == 0,
        b.num == 0,
    ensures
        feq(fr(a), fsub(fmul(fr(pv), fr(a)), fmul(fr(e), fr(b)))),
{
    let f = fsub(fmul(fr(pv), fr(a)), fmul(fr(e), fr(b)));
    assert(f.0 == 0) by (nonlinear_arith)
        requires
            f.0 == (pv.num * a.num) * (e.den * b.den) - (e.num * b.num) * (pv.den * a.den),
            a.num == 0,
            b.num == 0,
    ;
    assert(fr(a).0 * f.1 == 0) by (nonlinear_arith)
        requires
            fr(a).0 == 0,
    ;
}

/// Eliminating below the pivot row keeps the solutions: values solve the resulting
/// matrix exactly when they solve the one before.
pub(crate) proof fn lemma_elim_below_solutions(
    d: Seq<Seq<Rational>>,
    vars: Seq<Seq<char>>,
    n: nat,
    m: nat,
    col: nat,
    p: nat,
    r: nat,
    steps: Seq<SpecStep>,
    x: Seq<Frac>,
)
    requires
        rows_shaped(d, n, m),
        dens_nz(d, n, m),
        p < r,
        p < n,
        col < m,
        cleared_below(d, n, p, col),
        d[p as int][col as int].num != 0,
        vec_nz(x, m),
    ensures
        elim_below(d, vars, n, m, col, p, d[p as int][col as int], r, steps) matches Some((d2, s2)) ==> {
            &&& dens_nz(d2, n, m)
            &&& (solves(d2, x, n, m) <==> solves(d, x, n, m))
            &&& s2.len() >= steps.len()
            &&& forall|i: int| 0 <= i < steps.len() ==> #[trigger] s2[i] == steps[i]
            &&& forall|i: int|
                steps.len() <= i < s2.len() ==> (solves((#[trigger] s2[i]).matrix.data, x, n, m) <==> solves(d, x, n, m))
        },
    decreases n - r,
{
    let pv = d[p as int][col as int];
    if r >= n {
    } else if d[r as int][col as int].num == 0 {
        lemma_elim_below_solutions(d, vars, n, m, col, p, r + 1, steps, x);
    } else {
        let e = d[r as int][col as int];
        lemma_combine_value(d[r as int], d[p as int], pv, e, col, m);
        match combine_rows(d[r as int], d[p as int], pv, e, col, m) {
            Some(nr) => {
                let d1 = d.update(r as int, nr);
                assert(rows_shaped(d1, n, m)) by {
                    assert forall|k: int| 0 <= k < n implies #[trigger] d1[k].len() == m + 1 by {
                        if k != r {
                            assert(d1[k] == d[k]);
                        }
                    }
                }
                assert(dens_nz(d1, n, m)) by {
                    assert forall|i: int, j: int| 0 <= i < n && 0 <= j <= m implies (#[trigger] d1[i][j]).den != 0 by {
                        if i != r {
                            assert(d1[i] == d[i]);
                        } else if j < col {
                            assert(nr[j] == d[r as int][j]);
                        }
                    }
                }
                assert(cleared_below(d1, n, p, col)) by {
                    assert forall|i: int, j: int| p <= i < n && 0 <= j < col implies (#[trigger] d1[i][j]).num == 0 by {
                        if i != r {
                            assert(d1[i] == d[i]);
                        } else {
                            assert(nr[j] == d[r as int][j]);
                        }
                    }
                }
                assert(d1[p as int] == d[p as int]);
                // the new row is `pv * (row r) - e * (pivot row)` in every column
                assert forall|t: int| 0 <= t <= m implies feq(
                    fr(#[trigger] nr[t]),
                    fsub(fmul(fr(pv), fr(d[r as int][t])), fmul(fr(e), fr(d[p as int][t]))),
                ) by {
                    if t < col {
                        assert(nr[t] == d[r as int][t]);
                        assert(d[r as int][t].num == 0);
                        assert(d[p as int][t].num == 0);
                        lemma_zero_comb(pv, e, d[r as int][t], d[p as int][t]);
                    }
                }
                assert(row_nz(d[r as int], m + 1));
                assert(row_nz(d[p as int], m + 1));
                assert(row_nz(nr, m + 1)) by {
                    assert forall|t: int| 0 <= t < m + 1 implies (#[trigger] nr[t]).den != 0 by {
                        assert(d1[r as int][t] == nr[t]);
                    }
                }
                match multiplier_text(pv) {
                    Some(pvs) => match spec_neg(e) {
                        Some(ne) => match multiplier_text(ne) {
                            Some(srcs) => {
                                let st = SpecStep { matrix: snapshot(d1, vars, n, m), row_ops: elim_ops(n, p, r, srcs, pvs) };
                                let s1 = steps.push(st);
                                lemma_elim_below_solutions(d1, vars, n, m, col, p, r + 1, s1, x);
                                // the new matrix has the solutions of the one before
                                if solves(d1, x, n, m) {
                                    assert(satisfies(d1[r as int], x, m));
                                    assert(satisfies(d1[p as int], x, m));
                                    lemma_row_back(nr, d[r as int], d[p as int], pv, e, x, m);
                                    assert forall|i: int| 0 <= i < n implies satisfies(#[trigger] d[i], x, m) by {
                                        if i != r {
                                            assert(d1[i] == d[i]);
                                            assert(satisfies(d1[i], x, m));
                                        }
                                    }
                                }
                                if solves(d, x, n, m) {
                                    assert(satisfies(d[r as int], x, m));
                                    assert(satisfies(d[p as int], x, m));
                                    lemma_row_forward(nr, d[r as int], d[p as int], pv, e, x, m);
                                    assert forall|i: int| 0 <= i < n implies satisfies(#[trigger] d1[i], x, m) by {
                                        if i != r {
                                            assert(d1[i] == d[i]);
                                            assert(satisfies(d[i], x, m));
                                        }
                                    }
                                }
                                assert(solves(d1, x, n, m) <==> solves(d, x, n, m));
                                match elim_below(d1, vars, n, m, col, p, pv, r + 1, s1) {
                                    Some((d2, s2)) => {
                                        assert(s2[steps.len() as int] == st);
                                        assert forall|i: int| 0 <= i < steps.len() implies #[trigger] s2[i] == steps[i] by {
                                            assert(s2[i] == s1[i]);
                                        }
                                    },
                                    None => {},
                                }
                            },
                            None => {},
                        },
                        None => {},
                    },
                    None => {},
                }
            },
            None => {},
        }
    }
}

/// Forward elimination keeps the solutions: values solve the final matrix exactly
/// when they solve the matrix it started from.
pub(crate) proof fn lemma_elim_from_solutions(
    d: Seq<Seq<Rational>>,
    vars: Seq<Seq<char>>,
    n: nat,
    m: nat,
    col: nat,
    p: nat,
    steps: Seq<SpecStep>,
    x: Seq<Frac>,
)
    requires
        rows_shaped(d, n, m),
        dens_nz(d, n, m),
        col <= m,
        p <= n,
        cleared_below(d, n, p, col),
        vec_nz(x, m),
        steps.len() > 0,
        steps.last().matrix.data == d,
    ensures
        elim_from(d, vars, n, m, col, p, steps) matches Some((d2, s2)) ==> {
            &&& dens_nz(d2, n, m)
            &&& (solves(d2, x, n, m) <==> solves(d, x, n, m))
            &&& s2.len() >= steps.len()
            &&& forall|i: int| 0 <= i < steps.len() ==> #[trigger] s2[i] == steps[i]
            &&& forall|i: int|
                steps.len() <= i < s2.len() ==> (solves((#[trigger] s2[i]).matrix.data, x, n, m) <==> solves(d, x, n, m))
        },
    decreases m - col,
{
    if col >= m || p >= n {
    } else {
        match find_pivot(d, col, p, n) {
            None => {
                lemma_find_pivot_none(d, col, p, n);
                assert(cleared_below(d, n, p, col + 1)) by {
                    assert forall|r: int, j: int| p <= r < n && 0 <= j < col + 1 implies (#[trigger] d[r][j]).num == 0 by {
                        if j == col {
                            assert(d[r][col as int].num == 0);
                        }
                    }
                }
                lemma_elim_from_solutions(d, vars, n, m, col + 1, p, steps, x);
            },
            Some(pr) => {
                lemma_find_pivot_some(d, col, p, n);
                let d1 = if pr != p {
                    swap_rows(d, pr, p)
                } else {
                    d
                };
                let s1 = if pr != p {
                    steps.push(
                        SpecStep {
                            matrix: snapshot(d1, vars, n, m),
                            row_ops: swap_ops(n, p, pr, swap_label_spec(pr, p)),
                        },
                    )
                } else {
                    steps
                };
                // `d1` is `d` with the rows `pr` and `p` exchanged
                assert forall|k: int| 0 <= k < n implies #[trigger] d1[k] == (if k == pr { d[p as int] } else if k == p { d[pr as int] } else { d[k] }) by {}
                assert(rows_shaped(d1, n, m)) by {
                    assert forall|k: int| 0 <= k < n implies #[trigger] d1[k].len() == m + 1 by {
                        assert(d1[k] == (if k == pr { d[p as int] } else if k == p { d[pr as int] } else { d[k] }));
                    }
                }
                assert(dens_nz(d1, n, m)) by {
                    assert forall|i: int, j: int| 0 <= i < n && 0 <= j <= m implies (#[trigger] d1[i][j]).den != 0 by {
                        assert(d1[i] == (if i == pr { d[p as int] } else if i == p { d[pr as int] } else { d[i] }));
                    }
                }
                assert(cleared_below(d1, n, p, col)) by {
                    assert forall|r: int, j: int| p <= r < n && 0 <= j < col implies (#[trigger] d1[r][j]).num == 0 by {
                        assert(d1[r] == (if r == pr { d[p as int] } else if r == p { d[pr as int] } else { d[r] }));
                        if r == p {
                            assert(d[pr as int][j].num == 0);
                        }
                    }
                }
                let pv = d1[p as int][col as int];
                assert(pv.num != 0);
                lemma_elim_below_solutions(d1, vars, n, m, col, p, p + 1, s1, x);
                lemma_elim_below_clears(d1, vars, n, m, col, p, p + 1, s1);
                match elim_below(d1, vars, n, m, col, p, pv, p + 1, s1) {
                    Some((d2, s2)) => {
                        assert(cleared_below(d2, n, p + 1, col + 1)) by {
                            assert forall|r: int, j: int| p + 1 <= r < n && 0 <= j < col + 1 implies (#[trigger] d2[r][j]).num == 0 by {
                                if j < col {
                                    assert(d2[r][j] == d1[r][j]);
                                    assert(d1[r][j].num == 0);
                                } else {
                                    assert(d2[r][col as int].num == 0);
                                }
                            }
                        }
                        // the swap keeps the solutions
                        if solves(d1, x, n, m) {
                            assert forall|i: int| 0 <= i < n implies satisfies(#[trigger] d[i], x, m) by {
                                if i == pr {
                                    assert(d1[p as int] == d[i]);
                                    assert(satisfies(d1[p as int], x, m));
                                } else if i == p {
                                    assert(d1[pr as int] == d[i]);
                                    assert(satisfies(d1[pr as int], x, m));
                                } else {
                                    assert(d1[i] == d[i]);
                                    assert(satisfies(d1[i], x, m));
                                }
                            }
                        }
                        if solves(d, x, n, m) {
                            assert forall|i: int| 0 <= i < n implies satisfies(#[trigger] d1[i], x, m) by {
                                if i == pr {
                                    assert(d1[i] == d[p as int]);
                                    assert(satisfies(d[p as int], x, m));
                                } else if i == p {
                                    assert(d1[i] == d[pr as int]);
                                    assert(satisfies(d[pr as int], x, m));
                                } else {
                                    assert(d1[i] == d[i]);
                                    assert(satisfies(d[i], x, m));
                                }
                            }
                        }
                        assert(solves(d1, x, n, m) <==> solves(d, x, n, m));
                        lemma_elim_from_solutions(d2, vars, n, m, col + 1, p + 1, s2, x);
                        match elim_from(d2, vars, n, m, col + 1, p + 1, s2) {
                            Some((d3, s3)) => {
                                assert forall|i: int| 0 <= i < steps.len() implies #[trigger] s3[i] == steps[i] by {
                                    assert(s3[i] == s2[i]);
                                    assert(s2[i] == s1[i]);
                                }
                                if pr != p {
                                    assert(s3[steps.len() as int] == s1[steps.len() as int]);
                                }
                                assert forall|i: int| steps.len() <= i < s3.len() implies (solves((#[trigger] s3[i]).matrix.data, x, n, m) <==> solves(d, x, n, m)) by {
                                    if i < s1.len() {
                                        assert(s3[i] == s2[i]);
                                        assert(s2[i] == s1[i]);
                                    } else if i < s2.len() {
                                        assert(s3[i] == s2[i]);
                                    }
                                }
                            },
                            None => {},
                        }
                    },
                    None => {},
                }
            },
        }
    }
}

// ---------------------------------------------------------------------------
// Back substitution solves the echelon matrix
// ---------------------------------------------------------------------------

/// The names are pairwise different.
pub open spec fn distinct_names(vars: Seq<Seq<char>>) -> bool {
    forall|i: int, j: int| 0 <= i < j < vars.len() ==> #[trigger] vars[i] != #[trigger] vars[j]
}

/// The value a solution gives each column, by the column's name (zero where the
/// name has no value).
pub open spec fn solution_vector(sol: Seq<(Seq<char>, Rational)>, vars: Seq<Seq<char>>) -> Seq<Rational> {
    Seq::new(
        vars.len(),
        |j: int|
            match assoc_get(sol, vars[j]) {
                Some(v) => v,
                None => zero_spec(),
            },
    )
}

/// What `subst_rhs` computes: `rhs - sum(row[t] * x[t])` over the columns `j..m`.
pub(crate) proof fn lemma_subst_rhs(
    row: Seq<Rational>,
    vars: Seq<Seq<char>>,
    sol: Seq<(Seq<char>, Rational)>,
    j: nat,
    m: nat,
    rhs: Rational,
    vals: Seq<Rational>,
)
    requires
        j <= m,
        row_nz(row, m + 1),
        vars.len() == m,
        row_nz(vals, m),
        vals.len() == m,
        rhs.den != 0,
        forall|t: int| j <= t < m ==> assoc_get(sol, #[trigger] vars[t]) == Some(vals[t]),
    ensures
        subst_rhs(row, vars, sol, j, m, rhs) matches Some(res) ==> res.den != 0 && feq(
            fr(res),
            fsub(fr(rhs), lin(row, frs(vals), j, m)),
        ),
    decreases m - j,
{
    let x = frs(vals);
    lemma_frs_nz(vals, m);
    lemma_lin_nz(row, x, j, m);
    if j >= m {
        let f = fsub(fr(rhs), fzero());
        assert(feq(fr(rhs), f)) by (nonlinear_arith)
            requires
                f == (rhs.num * 1 - 0 * rhs.den, rhs.den * 1),
        ;
    } else {
        let b = fr(rhs);
        let t = fmul(fr(row[j as int]), x[j as int]);
        let l1 = lin(row, x, j + 1, m);
        lemma_lin_nz(row, x, j + 1, m);
        assert(fnz(fr(row[j as int])) && fnz(x[j as int]));
        lemma_fnz_ops(fr(row[j as int]), x[j as int]);
        if row[j as int].num == 0 {
            lemma_subst_rhs(row, vars, sol, j + 1, m, rhs, vals);
            assert(t.0 == 0) by (nonlinear_arith)
                requires
                    t.0 == row[j as int].num * x[j as int].0,
                    row[j as int].num == 0,
            ;
            lemma_fadd_zero(t, l1);
            assert(feq(b, b));
            lemma_fsub_cong(b, b, l1, lin(row, x, j, m));
            match subst_rhs(row, vars, sol, j + 1, m, rhs) {
                Some(res) => {
                    lemma_fnz_ops(b, l1);
                    lemma_feq_trans(fr(res), fsub(b, l1), fsub(b, lin(row, x, j, m)));
                },
                None => {},
            }
        } else {
            assert(assoc_get(sol, vars[j as int]) == Some(vals[j as int]));
            lemma_mul_value(row[j as int], vals[j as int]);
            match spec_mul(row[j as int], vals[j as int]) {
                Some(p) => {
                    lemma_sub_value(rhs, p);
                    match spec_sub(rhs, p) {
                        Some(r2) => {
                            lemma_subst_rhs(row, vars, sol, j + 1, m, r2, vals);
                            match subst_rhs(row, vars, sol, j + 1, m, r2) {
                                Some(res) => {
                                    // r2 == rhs - t
                                    assert(feq(b, b));
                                    lemma_fsub_cong(b, b, fr(p), t);
                                    lemma_fnz_ops(b, fr(p));
                                    lemma_feq_trans(fr(r2), fsub(b, fr(p)), fsub(b, t));
                                    // res == (rhs - t) - l1 == rhs - (t + l1)
                                    assert(feq(l1, l1));
                                    lemma_fsub_cong(fr(r2), fsub(b, t), l1, l1);
                                    lemma_fsub_sub(b, t, l1);
                                    lemma_fnz_ops(fr(r2), l1);
                                    lemma_fnz_ops(b, t);
                                    lemma_fnz_ops(fsub(b, t), l1);
                                    lemma_feq_trans(fr(res), fsub(fr(r2), l1), fsub(fsub(b, t), l1));
                                    lemma_feq_trans(fr(res), fsub(fsub(b, t), l1), fsub(b, fadd(t, l1)));
                                },
                                None => {},
                            }
                        },
                        None => {},
                    }
                },
                None => {},
            }
        }
    }
}

/// Back substitution from column `c` down, on a matrix whose rows `0..m` each lead
/// at their own column: every column gets a value, and each row `k < m` is satisfied
/// from column `k` on.
pub(crate) proof fn lemma_back_sub(
    d: Seq<Seq<Rational>>,
    vars: Seq<Seq<char>>,
    bv: Seq<Option<nat>>,
    n: nat,
    m: nat,
    c: nat,
    sol: Seq<(Seq<char>, Rational)>,
)
    requires
        rows_shaped(d, n, m),
        dens_nz(d, n, m),
        vars.len() == m,
        distinct_names(vars),
        c <= m <= n,
        bv.len() == m,
        forall|k: int| 0 <= k < m ==> #[trigger] bv[k] == Some(k as nat),
        forall|t: int| c <= t < m ==> (assoc_get(sol, #[trigger] vars[t]) matches Some(v) && v.den != 0),
        forall|t: int| 0 <= t < c ==> assoc_get(sol, #[trigger] vars[t]) is None,
        forall|k: int| c <= k < m ==> feq(lin(#[trigger] d[k], frs(solution_vector(sol, vars)), k as nat, m), fr(d[k][m as int])),
    ensures
        back_substitute(d, vars, bv, m, c, sol) matches Some(sf) ==> {
            &&& forall|t: int| 0 <= t < m ==> (assoc_get(sf, #[trigger] vars[t]) matches Some(v) && v.den != 0)
            &&& forall|k: int| 0 <= k < m ==> feq(lin(#[trigger] d[k], frs(solution_vector(sf, vars)), k as nat, m), fr(d[k][m as int]))
        },
    decreases c,
{
    if c > 0 {
        let col = (c - 1) as nat;
        assert(bv[col as int] == Some(col));
        let row = d[col as int];
        let x0 = solution_vector(sol, vars);
        assert(row_nz(row, m + 1)) by {
            assert forall|t: int| 0 <= t < m + 1 implies (#[trigger] row[t]).den != 0 by {
                assert(d[col as int][t].den != 0);
            }
        }
        assert(row_nz(x0, m) && x0.len() == m) by {
            assert forall|t: int| 0 <= t < m implies (#[trigger] x0[t]).den != 0 by {
                if t >= c {
                    assert(assoc_get(sol, vars[t]) is Some);
                } else {
                    assert(assoc_get(sol, vars[t]) is None);
                }
            }
        }
        assert forall|t: int| col + 1 <= t < m implies assoc_get(sol, #[trigger] vars[t]) == Some(x0[t]) by {
            assert(assoc_get(sol, vars[t]) is Some);
        }
        lemma_subst_rhs(row, vars, sol, col + 1, m, row[m as int], x0);
        match subst_rhs(row, vars, sol, col + 1, m, row[m as int]) {
            Some(rhs) => {
                let piv = row[col as int];
                let vo = if is_one_spec(piv) {
                    Some(rhs)
                } else {
                    spec_div(rhs, piv)
                };
                lemma_div_value(rhs, piv);
                match vo {
                    Some(v) => {
                        // v * pivot == rhs
                        assert(v.den != 0 && feq(fmul(fr(v), fr(piv)), fr(rhs))) by {
                            if is_one_spec(piv) {
                                assert(fmul(fr(v), fr(piv)) == (rhs.num * 1, rhs.den * 1));
                                assert(feq(fmul(fr(v), fr(piv)), fr(rhs))) by (nonlinear_arith)
                                    requires
                                        fmul(fr(v), fr(piv)) == (rhs.num * 1, rhs.den * 1),
                                ;
                            }
                        }
                        let sol2 = assoc_put(sol, vars[col as int], v);
                        let x1 = solution_vector(sol2, vars);
                        assert forall|t: int| 0 <= t < m implies assoc_get(sol2, #[trigger] vars[t]) == (if t == col {
                            Some(v)
                        } else {
                            assoc_get(sol, vars[t])
                        }) by {
                            lemma_assoc_get_put(sol, vars[col as int], v, vars[t]);
                            if t != col {
                                if t < col {
                                    assert(vars[t] != vars[col as int]);
                                } else {
                                    assert(vars[col as int] != vars[t]);
                                }
                            }
                        }
                        assert forall|t: int| 0 <= t < m && t != col implies #[trigger] x1[t] == x0[t] by {
                            assert(assoc_get(sol2, vars[t]) == assoc_get(sol, vars[t]));
                        }
                        assert(x1[col as int] == v) by {
                            assert(assoc_get(sol2, vars[col as int]) == Some(v));
                        }
                        // row `col` is now satisfied
                        let b = fr(row[m as int]);
                        let f0 = frs(x0);
                        let f1 = frs(x1);
                        lemma_frs_nz(x0, m);
                        assert forall|t: int| col + 1 <= t < m implies #[trigger] f1[t] == f0[t] by {
                            assert(x1[t] == x0[t]);
                        }
                        let l = lin(row, f0, col + 1, m);
                        lemma_lin_agree(row, f1, f0, col + 1, m);
                        assert(lin(row, f1, col + 1, m) == l);
                        assert(f1[col as int] == fr(v));
                        assert(lin(row, f1, col, m) == fadd(fmul(fr(piv), fr(v)), l));
                        lemma_fmul_comm(fr(piv), fr(v));
                        lemma_fnz_ops(fr(v), fr(piv));
                        lemma_feq_trans(fmul(fr(piv), fr(v)), fmul(fr(v), fr(piv)), fr(rhs));
                        lemma_lin_nz(row, f0, col + 1, m);
                        lemma_fnz_ops(b, l);
                        lemma_feq_trans(fmul(fr(piv), fr(v)), fr(rhs), fsub(b, l));
                        assert(feq(l, l));
                        lemma_fadd_cong(fmul(fr(piv), fr(v)), fsub(b, l), l, l);
                        lemma_fsub_add_cancel(b, l);
                        lemma_fnz_ops(fsub(b, l), l);
                        lemma_feq_trans(lin(row, f1, col, m), fadd(fsub(b, l), l), b);
                        // the rows below keep their sums
                        assert forall|k: int| col <= k < m implies feq(lin(#[trigger] d[k], f1, k as nat, m), fr(d[k][m as int])) by {
                            if k > col {
                                assert forall|t: int| k <= t < m implies #[trigger] f1[t] == f0[t] by {
                                    assert(x1[t] == x0[t]);
                                }
                                lemma_lin_agree(d[k], f1, f0, k as nat, m);
                            }
                        }
                        assert forall|t: int| col <= t < m implies (assoc_get(sol2, #[trigger] vars[t]) matches Some(w) && w.den != 0) by {
                            if t > col {
                                assert(assoc_get(sol2, vars[t]) == assoc_get(sol, vars[t]));
                            }
                        }
                        assert forall|t: int| 0 <= t < col implies assoc_get(sol2, #[trigger] vars[t]) is None by {
                            assert(assoc_get(sol2, vars[t]) == assoc_get(sol, vars[t]));
                        }
                        lemma_back_sub(d, vars, bv, n, m, col, sol2);
                    },
                    None => {},
                }
            },
            None => {},
        }
    }
}

// ---------------------------------------------------------------------------
// The shape of a uniquely solvable echelon matrix
// ---------------------------------------------------------------------------

/// Where every column gets a pivot row, the pivots are the consecutive rows from `r`
/// on, each with a non-zero entry at its column.
pub(crate) proof fn lemma_pivot_all(d: Seq<Seq<Rational>>, n: nat, m: nat, col: nat, r: nat, bv0: Seq<Option<nat>>)
    requires
        bv0.len() == m,
        col <= m,
        forall|t: int| col <= t < m ==> (#[trigger] bv0[t]) is None,
    ensures
        pivot_rows(d, n, m, col, r, bv0).len() == m,
        forall|t: int| 0 <= t < col ==> #[trigger] pivot_rows(d, n, m, col, r, bv0)[t] == bv0[t],
        (forall|t: int| col <= t < m ==> (#[trigger] pivot_rows(d, n, m, col, r, bv0)[t]) is Some) ==> forall|t: int|
            col <= t < m ==> {
                &&& #[trigger] pivot_rows(d, n, m, col, r, bv0)[t] == Some((r + t - col) as nat)
                &&& r + t - col < n
                &&& d[r + t - col][t].num != 0
            },
    decreases m - col,
{
    let res = pivot_rows(d, n, m, col, r, bv0);
    if col >= m || r >= n {
        if col < m {
            assert(res[col as int] is None);
        }
    } else if d[r as int][col as int].num != 0 {
        let b2 = bv0.update(col as int, Some(r));
        lemma_pivot_all(d, n, m, col + 1, r + 1, b2);
        assert(res[col as int] == Some(r));
    } else {
        lemma_pivot_all(d, n, m, col + 1, r, bv0);
        assert(res[col as int] is None);
    }
}

pub(crate) proof fn lemma_lead_le(row: Seq<Rational>, m: nat, j: nat, t: nat)
    requires
        j <= t < m,
        row[t as int].num != 0,
    ensures
        lead_from(row, j, m) <= t,
    decreases t - j,
{
    if j < t && row[j as int].num == 0 {
        lemma_lead_le(row, m, j + 1, t);
    }
}

/// Before the leading column every coefficient is zero.
pub(crate) proof fn lemma_lead_zeros(row: Seq<Rational>, m: nat, j: nat)
    ensures
        lead_from(row, j, m) <= m || j > m,
        forall|t: int| j <= t < lead_from(row, j, m) && t < m ==> (#[trigger] row[t]).num == 0,
    decreases m - j,
{
    if j < m && row[j as int].num == 0 {
        lemma_lead_zeros(row, m, j + 1);
    }
}

/// In echelon form, with a non-zero diagonal entry in each of the rows `0..=k`, row
/// `k` leads at column `k`.
pub(crate) proof fn lemma_lead_diagonal(d: Seq<Seq<Rational>>, n: nat, m: nat, k: nat)
    requires
        echelon(d, n, m),
        k < m <= n,
        forall|t: int| 0 <= t <= k ==> (#[trigger] d[t][t]).num != 0,
    ensures
        lead(d[k as int], m) == k,
    decreases k,
{
    assert(d[k as int][k as int].num != 0);
    lemma_lead_le(d[k as int], m, 0, k);
    if k > 0 {
        lemma_lead_diagonal(d, n, m, (k - 1) as nat);
        assert(lead(d[k as int], m) < m);
        assert(lead(d[k - 1], m) < lead(d[k as int], m));
    }
}

// ---------------------------------------------------------------------------
// The law
// ---------------------------------------------------------------------------

/// What a unique solution read off a matrix in row echelon form leaves: a non-zero
/// pivot on the diagonal of the first `m` rows, zeros left of it, rows of zeros below
/// (right-hand side included), and a value for every column with which each pivot
/// row holds from its pivot on.
pub(crate) proof fn lemma_unique_echelon(d: Seq<Seq<Rational>>, vars: Seq<Seq<char>>, n: nat, m: nat, sol: Seq<(Seq<char>, Rational)>)
    requires
        rows_shaped(d, n, m),
        dens_nz(d, n, m),
        echelon(d, n, m),
        vars.len() == m,
        distinct_names(vars),
        solution_spec(d, vars, n, m) == Some(SpecSolution::Unique(sol)),
    ensures
        m <= n,
        forall|t: int| 0 <= t < m ==> (#[trigger] d[t][t]).num != 0,
        forall|k: int, j: int| 0 <= j < k < m ==> (#[trigger] d[k][j]).num == 0,
        forall|k: int, j: int| m <= k < n && 0 <= j <= m ==> (#[trigger] d[k][j]).num == 0,
        forall|t: int| 0 <= t < m ==> assoc_get(sol, #[trigger] vars[t]) is Some,
        vec_nz(frs(solution_vector(sol, vars)), m),
        forall|k: int|
            0 <= k < m ==> feq(
                lin(#[trigger] d[k], frs(solution_vector(sol, vars)), k as nat, m),
                fr(d[k][m as int]),
            ),
{
    let bv = basic_columns(d, n, m);
    lemma_pivot_all(d, n, m, 0, 0, Seq::new(m, |i: int| None));
    lemma_free_columns(bv, m);
    assert(forall|t: int| 0 <= t < m ==> #[trigger] bv[t] is Some);
    assert(forall|t: int| 0 <= t < m ==> #[trigger] bv[t] == Some(t as nat));
    assert(m <= n) by {
        if m > 0 {
            assert(bv[m - 1] == Some((m - 1) as nat));
        }
    }
    assert forall|t: int| 0 <= t < m implies (#[trigger] d[t][t]).num != 0 by {
        assert(bv[t] == Some(t as nat));
    }
    // rows `0..m` lead at their own column
    assert forall|k: int, j: int| 0 <= j < k < m implies (#[trigger] d[k][j]).num == 0 by {
        lemma_lead_diagonal(d, n, m, k as nat);
        lemma_lead_zeros(d[k], m, 0);
    }
    // rows below the pivots are zero, right-hand side included
    assert forall|k: int, j: int| m <= k < n && 0 <= j <= m implies (#[trigger] d[k][j]).num == 0 by {
        lemma_lead_zeros(d[k], m, 0);
        if m > 0 {
            if lead(d[k], m) < m {
                lemma_lead_diagonal(d, n, m, (m - 1) as nat);
                assert(lead(d[m - 1], m) < lead(d[k], m));
            }
        }
        assert(lead(d[k], m) == m);
        assert forall|t: int| 0 <= t < m implies (#[trigger] d[k][t]).num == 0 by {}
        assert(!row_inconsistent(d[k], m));
    }
    lemma_back_sub(d, vars, bv, n, m, m, Seq::empty());
    let x = solution_vector(sol, vars);
    assert(row_nz(x, m)) by {
        assert forall|t: int| 0 <= t < m implies (#[trigger] x[t]).den != 0 by {
            assert(assoc_get(sol, vars[t]) is Some);
        }
    }
    lemma_frs_nz(x, m);
}


/// What a unique solution reported by elimination leaves: the final matrix is in row
/// echelon form with the shape of the one elimination started from (see
/// [`lemma_unique_echelon`]).
pub(crate) proof fn lemma_unique_final(a: SpecMatrix, d: Seq<Seq<Rational>>, st: Seq<SpecStep>, sol: Seq<(Seq<char>, Rational)>)
    requires
        shaped(a),
        dens_nz(a.data, a.rows, a.cols),
        distinct_names(a.vars),
        elim_from(a.data, a.vars, a.rows, a.cols, 0, 0, seq![initial_step(a)]) == Some((d, st)),
        solution_spec(d, a.vars, a.rows, a.cols) == Some(SpecSolution::Unique(sol)),
    ensures
        rows_shaped(d, a.rows, a.cols),
        dens_nz(d, a.rows, a.cols),
        echelon(d, a.rows, a.cols),
        a.cols <= a.rows,
        forall|t: int| 0 <= t < a.cols ==> (#[trigger] d[t][t]).num != 0,
        forall|k: int, j: int| 0 <= j < k < a.cols ==> (#[trigger] d[k][j]).num == 0,
        forall|k: int, j: int| a.cols <= k < a.rows && 0 <= j <= a.cols ==> (#[trigger] d[k][j]).num == 0,
        forall|t: int| 0 <= t < a.cols ==> assoc_get(sol, #[trigger] a.vars[t]) is Some,
        vec_nz(frs(solution_vector(sol, a.vars)), a.cols),
        forall|k: int|
            0 <= k < a.cols ==> feq(
                lin(#[trigger] d[k], frs(solution_vector(sol, a.vars)), k as nat, a.cols),
                fr(d[k][a.cols as int]),
            ),
{
    let n = a.rows;
    let m = a.cols;
    let s0 = seq![initial_step(a)];
    assert(s0.last().matrix.data == a.data);
    assert(rows_shaped(a.data, n, m));
    lemma_elim_from_echelon(a.data, a.vars, n, m, 0, 0, s0);
    law_steps_keep_shape(a);
    assert(gauss_spec(a) == Some((st, SpecSolution::Unique(sol))));
    assert(step_keeps_shape(st[st.len() - 1], a));
    assert(rows_shaped(d, n, m));
    let zeros = Seq::new(m, |i: int| fzero());
    assert(vec_nz(zeros, m));
    lemma_elim_from_solutions(a.data, a.vars, n, m, 0, 0, s0, zeros);
    lemma_unique_echelon(d, a.vars, n, m, sol);
}

/// A unique solution read off a matrix in row echelon form solves it: where the
/// solution is unique, every column's name has a value, and these values satisfy
/// every equation (row) of the matrix, exactly.
pub proof fn law_echelon_unique_solution_solves(d: Seq<Seq<Rational>>, vars: Seq<Seq<char>>, n: nat, m: nat)
    requires
        rows_shaped(d, n, m),
        dens_nz(d, n, m),
        echelon(d, n, m),
        vars.len() == m,
        distinct_names(vars),
    ensures
        solution_spec(d, vars, n, m) matches Some(SpecSolution::Unique(sol)) ==> {
            &&& forall|j: int| 0 <= j < m ==> assoc_get(sol, #[trigger] vars[j]) is Some
            &&& solves(d, frs(solution_vector(sol, vars)), n, m)
        },
{
    match solution_spec(d, vars, n, m) {
        Some(SpecSolution::Unique(sol)) => {
            lemma_unique_echelon(d, vars, n, m, sol);
            let x = frs(solution_vector(sol, vars));
            // every row of the final matrix is satisfied
            assert forall|k: int| 0 <= k < n implies satisfies(#[trigger] d[k], x, m) by {
                assert(row_nz(d[k], m + 1)) by {
                    assert forall|t: int| 0 <= t < m + 1 implies (#[trigger] d[k][t]).den != 0 by {}
                }
                if k < m {
                    assert forall|t: int| 0 <= t < k implies (#[trigger] d[k][t]).num == 0 by {}
                    lemma_lin_zero_prefix(d[k], x, 0, k as nat, m);
                    lemma_lin_nz(d[k], x, k as nat, m);
                    lemma_feq_trans(lin(d[k], x, 0, m), lin(d[k], x, k as nat, m), fr(d[k][m as int]));
                } else {
                    assert forall|t: int| 0 <= t < m implies (#[trigger] d[k][t]).num == 0 by {}
                    lemma_lin_zero_row(d[k], x, 0, m);
                    let l = lin(d[k], x, 0, m);
                    let b = fr(d[k][m as int]);
                    assert(b.0 == 0);
                    assert(l.0 * b.1 == b.0 * l.1) by (nonlinear_arith)
                        requires
                            l.0 == 0,
                            b.0 == 0,
                    ;
                }
            }
        },
        _ => {},
    }
}

/// A unique solution solves the system: where elimination reports a unique
/// solution, every column's name has a value, and these values satisfy every
/// equation (row) of the matrix the elimination started from, exactly.
pub proof fn law_unique_solution_solves(a: SpecMatrix)
    requires
        shaped(a),
        dens_nz(a.data, a.rows, a.cols),
        distinct_names(a.vars),
    ensures
        gauss_spec(a) matches Some((steps, SpecSolution::Unique(sol))) ==> {
            &&& forall|j: int| 0 <= j < a.cols ==> assoc_get(sol, #[trigger] a.vars[j]) is Some
            &&& solves(a.data, frs(solution_vector(sol, a.vars)), a.rows, a.cols)
        },
{
    let n = a.rows;
    let m = a.cols;
    let s0 = seq![initial_step(a)];
    match elim_from(a.data, a.vars, n, m, 0, 0, s0) {
        Some((d, st)) => {
            match solution_spec(d, a.vars, n, m) {
                Some(SpecSolution::Unique(sol)) => {
                    lemma_unique_final(a, d, st, sol);
                    let x = frs(solution_vector(sol, a.vars));
                    law_echelon_unique_solution_solves(d, a.vars, n, m);
                    assert(s0.last().matrix.data == a.data);
                    assert(rows_shaped(a.data, n, m));
                    lemma_elim_from_solutions(a.data, a.vars, n, m, 0, 0, s0, x);
                },
                _ => {},
            }
        },
        None => {},
    }
}

/// Every recorded step keeps the solutions: values (with non-zero denominators, one
/// per column) satisfy every row of a step's matrix exactly when they satisfy every
/// row of the matrix the elimination started from.
pub proof fn law_every_step_keeps_solutions(a: SpecMatrix, x: Seq<Frac>)
    requires
        shaped(a),
        dens_nz(a.data, a.rows, a.cols),
        vec_nz(x, a.cols),
    ensures
        gauss_spec(a) matches Some((steps, sol)) ==> forall|i: int|
            0 <= i < steps.len() ==> (solves((#[trigger] steps[i]).matrix.data, x, a.rows, a.cols) <==> solves(
                a.data,
                x,
                a.rows,
                a.cols,
            )),
{
    let s0 = seq![initial_step(a)];
    assert(s0.last().matrix.data == a.data);
    assert(rows_shaped(a.data, a.rows, a.cols));
    lemma_elim_from_solutions(a.data, a.vars, a.rows, a.cols, 0, 0, s0, x);
    match elim_from(a.data, a.vars, a.rows, a.cols, 0, 0, s0) {
        Some((d, st)) => {
            assert(st[0] == s0[0]);
        },
        None => {},
    }
}

/// A system reported without solution has none: where elimination reports no
/// solution, no values (with non-zero denominators, one per column) satisfy every
/// equation of the matrix it started from.
pub proof fn law_no_solution_is_exact(a: SpecMatrix, x: Seq<Frac>)
    requires
        shaped(a),
        dens_nz(a.data, a.rows, a.cols),
        vec_nz(x, a.cols),
    ensures
        gauss_spec(a) matches Some((steps, SpecSolution::NoSolution)) ==> !solves(a.data, x, a.rows, a.cols),
{
    let n = a.rows;
    let m = a.cols;
    let s0 = seq![initial_step(a)];
    assert(s0.last().matrix.data == a.data);
    assert(rows_shaped(a.data, n, m));
    lemma_elim_from_echelon(a.data, a.vars, n, m, 0, 0, s0);
    lemma_elim_from_solutions(a.data, a.vars, n, m, 0, 0, s0, x);
    law_steps_keep_shape(a);
    match elim_from(a.data, a.vars, n, m, 0, 0, s0) {
        Some((d, st)) => {
            match solution_spec(d, a.vars, n, m) {
                Some(SpecSolution::NoSolution) => {
                    assert(gauss_spec(a) == Some((st, SpecSolution::NoSolution)));
                    assert(step_keeps_shape(st[st.len() - 1], a));
                    assert(rows_shaped(d, n, m));
                    law_read_off_no_solution_is_exact(d, a.vars, n, m, x);
                },
                _ => {},
            }
        },
        None => {},
    }
}

/// Two value vectors that both satisfy the pivot rows `0..m` (each from its pivot
/// on) agree from column `k` on.
pub(crate) proof fn lemma_unique_values(d: Seq<Seq<Rational>>, n: nat, m: nat, x: Seq<Frac>, y: Seq<Frac>, k: nat)
    requires
        rows_shaped(d, n, m),
        dens_nz(d, n, m),
        k <= m <= n,
        forall|t: int| 0 <= t < m ==> (#[trigger] d[t][t]).num != 0,
        vec_nz(x, m),
        vec_nz(y, m),
        forall|t: int| 0 <= t < m ==> feq(lin(#[trigger] d[t], x, t as nat, m), fr(d[t][m as int])),
        forall|t: int| 0 <= t < m ==> feq(lin(#[trigger] d[t], y, t as nat, m), fr(d[t][m as int])),
    ensures
        forall|t: int| k <= t < m ==> feq((#[trigger] x[t]), y[t]),
    decreases m - k,
{
    if k < m {
        lemma_unique_values(d, n, m, x, y, k + 1);
        let row = d[k as int];
        assert(row_nz(row, m + 1)) by {
            assert forall|t: int| 0 <= t < m + 1 implies (#[trigger] row[t]).den != 0 by {
                assert(d[k as int][t].den != 0);
            }
        }
        let piv = fr(row[k as int]);
        let b = fr(row[m as int]);
        let lx = lin(row, x, k + 1, m);
        let ly = lin(row, y, k + 1, m);
        lemma_lin_cong(row, x, y, k + 1, m);
        lemma_lin_nz(row, x, k + 1, m);
        lemma_lin_nz(row, y, k + 1, m);
        assert(feq(lin(row, x, k as nat, m), b));
        assert(feq(lin(row, y, k as nat, m), b));
        let px = fmul(piv, x[k as int]);
        let py = fmul(piv, y[k as int]);
        assert(fnz(piv) && fnz(x[k as int]) && fnz(y[k as int]) && fnz(b));
        lemma_fnz_ops(piv, x[k as int]);
        lemma_fnz_ops(piv, y[k as int]);
        lemma_feq_trans(fadd(px, lx), b, fadd(py, ly));
        assert(feq(py, py));
        lemma_fadd_cong(py, py, ly, lx);
        lemma_fnz_ops(py, ly);
        lemma_feq_trans(fadd(px, lx), fadd(py, ly), fadd(py, lx));
        lemma_fadd_cancel(px, py, lx);
        lemma_fmul_cancel(piv, x[k as int], y[k as int]);
    }
}

/// A unique solution read off a matrix in row echelon form is its only solution:
/// any values (with non-zero denominators, one per column) that satisfy every
/// equation of the matrix denote the same numbers as the solution, column by column.
pub proof fn law_echelon_unique_solution_is_only(d: Seq<Seq<Rational>>, vars: Seq<Seq<char>>, n: nat, m: nat, x: Seq<Frac>)
    requires
        rows_shaped(d, n, m),
        dens_nz(d, n, m),
        echelon(d, n, m),
        vars.len() == m,
        distinct_names(vars),
        vec_nz(x, m),
        solves(d, x, n, m),
    ensures
        solution_spec(d, vars, n, m) matches Some(SpecSolution::Unique(sol)) ==> forall|j: int|
            0 <= j < m ==> feq(#[trigger] x[j], fr(solution_vector(sol, vars)[j])),
{
    match solution_spec(d, vars, n, m) {
        Some(SpecSolution::Unique(sol)) => {
            lemma_unique_echelon(d, vars, n, m, sol);
            let xs = frs(solution_vector(sol, vars));
            assert forall|t: int| 0 <= t < m implies feq(lin(#[trigger] d[t], x, t as nat, m), fr(d[t][m as int])) by {
                assert(satisfies(d[t], x, m));
                assert(row_nz(d[t], m + 1)) by {
                    assert forall|j: int| 0 <= j < m + 1 implies (#[trigger] d[t][j]).den != 0 by {}
                }
                assert forall|j: int| 0 <= j < t implies (#[trigger] d[t][j]).num == 0 by {}
                lemma_lin_zero_prefix(d[t], x, 0, t as nat, m);
                lemma_lin_nz(d[t], x, 0, m);
                lemma_feq_trans(lin(d[t], x, t as nat, m), lin(d[t], x, 0, m), fr(d[t][m as int]));
            }
            lemma_unique_values(d, n, m, x, xs, 0);
            assert forall|j: int| 0 <= j < m implies feq(#[trigger] x[j], fr(solution_vector(sol, vars)[j])) by {
                assert(feq(x[j], xs[j]));
            }
        },
        _ => {},
    }
}

/// A matrix read off as having no solution has none: where its solution is read as
/// none, no values (with non-zero denominators, one per column) satisfy every
/// equation (row) of it.
pub proof fn law_read_off_no_solution_is_exact(d: Seq<Seq<Rational>>, vars: Seq<Seq<char>>, n: nat, m: nat, x: Seq<Frac>)
    requires
        rows_shaped(d, n, m),
        dens_nz(d, n, m),
        vec_nz(x, m),
    ensures
        solution_spec(d, vars, n, m) == Some(SpecSolution::NoSolution) ==> !solves(d, x, n, m),
{
    if solution_spec(d, vars, n, m) == Some(SpecSolution::NoSolution) {
        law_solution_kind(d, vars, n, m);
        assert(inconsistent(d, n, m));
        let r = choose|r: int| 0 <= r < n && row_inconsistent(#[trigger] d[r], m);
        if solves(d, x, n, m) {
            assert(satisfies(d[r], x, m));
            assert forall|t: int| 0 <= t < m implies (#[trigger] d[r][t]).num == 0 by {}
            lemma_lin_zero_row(d[r], x, 0, m);
            assert(row_nz(d[r], m + 1)) by {
                assert forall|t: int| 0 <= t < m + 1 implies (#[trigger] d[r][t]).den != 0 by {}
            }
            lemma_lin_nz(d[r], x, 0, m);
            let l = lin(d[r], x, 0, m);
            let b = fr(d[r][m as int]);
            assert(b.0 != 0);
            assert(false) by (nonlinear_arith)
                requires
                    l.0 * b.1 == b.0 * l.1,
                    l.0 == 0,
                    b.0 != 0,
                    l.1 != 0,
            ;
        }
    }
}

/// A unique solution is the only one: where elimination reports a unique solution,
/// any values (with non-zero denominators, one per column) that satisfy every
/// equation of the matrix denote the same numbers as the solution, column by column.
pub proof fn law_unique_solution_is_only(a: SpecMatrix, x: Seq<Frac>)
    requires
        shaped(a),
        dens_nz(a.data, a.rows, a.cols),
        distinct_names(a.vars),
        vec_nz(x, a.cols),
        solves(a.data, x, a.rows, a.cols),
    ensures
        gauss_spec(a) matches Some((steps, SpecSolution::Unique(sol))) ==> forall|j: int|
            0 <= j < a.cols ==> feq(#[trigger] x[j], fr(solution_vector(sol, a.vars)[j])),
{
    let n = a.rows;
    let m = a.cols;
    let s0 = seq![initial_step(a)];
    match elim_from(a.data, a.vars, n, m, 0, 0, s0) {
        Some((d, st)) => {
            match solution_spec(d, a.vars, n, m) {
                Some(SpecSolution::Unique(sol)) => {
                    lemma_unique_final(a, d, st, sol);
                    assert(s0.last().matrix.data == a.data);
                    assert(rows_shaped(a.data, n, m));
                    lemma_elim_from_solutions(a.data, a.vars, n, m, 0, 0, s0, x);
                    assert(solves(d, x, n, m));
                    law_echelon_unique_solution_is_only(d, a.vars, n, m, x);
                },
                _ => {},
            }
        },
        None => {},
    }
}

// ---------------------------------------------------------------------------
// Matrices built from equations
// ---------------------------------------------------------------------------

/// An equation as parsing gives it: coefficients and constant in lowest terms.
pub open spec fn equation_reduced(eq: (SpecTerms, Rational)) -> bool {
    &&& forall|i: int| 0 <= i < eq.0.len() ==> wf(#[trigger] eq.0[i].1)
    &&& wf(eq.1)
}

pub(crate) proof fn lemma_fill_row_pos(row: Seq<Rational>, terms: SpecTerms, set: Seq<(Seq<char>, usize)>)
    requires
        forall|j: int| 0 <= j < row.len() ==> (#[trigger] row[j]).den > 0,
        forall|i: int| 0 <= i < terms.len() ==> wf(#[trigger] terms[i].1),
    ensures
        fill_row(row, terms, set).len() == row.len(),
        forall|j: int| 0 <= j < row.len() ==> (#[trigger] fill_row(row, terms, set)[j]).den > 0,
    decreases terms.len(),
{
    if terms.len() > 0 {
        let t0 = terms.drop_last();
        assert forall|i: int| 0 <= i < t0.len() implies wf(#[trigger] t0[i].1) by {
            assert(t0[i] == terms[i]);
        }
        lemma_fill_row_pos(row, t0, set);
        assert(wf(terms[terms.len() - 1].1));
    }
}

/// The matrix built from equations in lowest terms is a valid input for the laws
/// above: its entries have non-zero denominators and its names are pairwise
/// different.
pub proof fn law_built_matrix_is_valid(eqs: Seq<(SpecTerms, Rational)>)
    requires
        total_terms(eqs) <= usize::MAX,
        forall|i: int| 0 <= i < eqs.len() ==> equation_reduced(#[trigger] eqs[i]),
    ensures
        dens_nz(from_equations_spec(eqs).data, from_equations_spec(eqs).rows, from_equations_spec(eqs).cols),
        distinct_names(from_equations_spec(eqs).vars),
{
    let a = from_equations_spec(eqs);
    let set = variable_numbers(eqs);
    let m = set.len();
    lemma_variable_numbers(eqs);
    assert forall|i: int, j: int| 0 <= i < a.rows && 0 <= j <= a.cols implies (#[trigger] a.data[i][j]).den > 0 by {
        let z = Seq::new(m + 1, |k: int| zero_spec());
        assert(equation_reduced(eqs[i]));
        lemma_fill_row_pos(z, eqs[i].0, column_numbers(set));
        if j < m {
            assert(a.data[i][j] == fill_row(z, eqs[i].0, column_numbers(set))[j]);
        }
    }
    assert forall|i: int, j: int| 0 <= i < j < a.vars.len() implies #[trigger] a.vars[i] != #[trigger] a.vars[j] by {
        assert(a.vars[i] == set[i].0);
        assert(a.vars[j] == set[j].0);
        assert(name_lt(set[i].0, set[j].0));
        lemma_name_lt_irreflexive(set[i].0);
    }
}

} // verus!
