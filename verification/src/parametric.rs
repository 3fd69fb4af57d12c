use vstd::prelude::*;
use crate::echelon::{echelon, lead, lead_from, lemma_elim_from_echelon};
use crate::frac::{
    fadd, feq, fmul, fnz, fr, fsub, fzero, lemma_div_value, lemma_fadd_cancel, lemma_fadd_cong,
    lemma_fadd_mul, lemma_fadd_zero, lemma_fadd_zero_right, lemma_feq_trans, lemma_fmul_cancel,
    lemma_fmul_comm, lemma_fmul_cong, lemma_fmul_distrib, lemma_fmul_one, lemma_fmul_swap,
    lemma_fnz_ops, lemma_fsub_add_cancel, lemma_fsub_add_sub, lemma_fsub_cong, lemma_fsub_sub,
    lemma_fsub_zero, lemma_mul_value, lemma_sub_value, Frac,
};
use crate::gauss::{
    elim_from, gauss_spec, initial_step, law_solution_kind, law_steps_keep_shape, step_keeps_shape,
    SpecStep,
};
use crate::matrix::{shaped, SpecMatrix};
use crate::rational::{spec_div, spec_mul, spec_sub, zero_spec, Rational};
use crate::solution::{
    accumulate, basic_columns, divide_all, format_expr, free_columns, free_entries, is_one_spec,
    lemma_free_columns, param_loop, param_name, param_names, pivot_rows, row_inconsistent,
    rows_shaped, scale_expr, seed, solution_spec, sub_scaled, unit_vec, zeros, Expr, SpecSolution,
};
use crate::soundness::{
    dens_nz, frac_nz, lemma_elim_from_solutions, lemma_lead_le, lemma_lead_zeros, lemma_lin_agree,
    lemma_lin_comb, lemma_lin_cong, lemma_lin_nz, lemma_lin_zero_prefix, lemma_lin_zero_row,
    lemma_pivot_all, lin, row_nz, satisfies, solves, vec_nz,
};

verus! {

// ---------------------------------------------------------------------------
// Affine expressions in the parameters
// ---------------------------------------------------------------------------

/// The value of an expression for the parameter values `t`:
/// `constant + sum(coeffs[i] * t[i])`.
pub open spec fn expr_value(ex: Expr, t: Seq<Frac>, nf: nat) -> Frac {
    fadd(lin(ex.0, t, 0, nf), fr(ex.1))
}

/// `nf` coefficients and a constant, all with non-zero denominators.
pub open spec fn expr_nz(ex: Expr, nf: nat) -> bool {
    &&& ex.0.len() == nf
    &&& row_nz(ex.0, nf)
    &&& ex.1.den != 0
}

pub(crate) proof fn lemma_expr_value_nz(ex: Expr, t: Seq<Frac>, nf: nat)
    requires
        expr_nz(ex, nf),
        frac_nz(t, nf),
    ensures
        fnz(expr_value(ex, t, nf)),
{
    lemma_lin_nz(ex.0, t, 0, nf);
    lemma_fnz_ops(lin(ex.0, t, 0, nf), fr(ex.1));
}

/// Each entry `sub_scaled` computes is `coeffs[i] - c * ec[i]`.
proof fn lemma_sub_scaled_value(coeffs: Seq<Rational>, c: Rational, ec: Seq<Rational>, fi: nat, nf: nat)
    requires
        coeffs.len() == nf,
        row_nz(coeffs, nf),
        ec.len() == nf,
    ensures
        sub_scaled(coeffs, c, ec, fi, nf) matches Some(c2) ==> {
            &&& c2.len() == nf
            &&& forall|i: int| 0 <= i < fi ==> #[trigger] c2[i] == coeffs[i]
            &&& forall|i: int|
                fi <= i < nf ==> (#[trigger] c2[i]).den != 0 && feq(fr(c2[i]), fsub(fr(coeffs[i]), fmul(fr(c), fr(ec[i]))))
        },
    decreases nf - fi,
{
    if fi < nf {
        lemma_mul_value(c, ec[fi as int]);
        match spec_mul(c, ec[fi as int]) {
            Some(p) => {
                lemma_sub_value(coeffs[fi as int], p);
                match spec_sub(coeffs[fi as int], p) {
                    Some(v) => {
                        let c1 = coeffs.update(fi as int, v);
                        assert(row_nz(c1, nf)) by {
                            assert forall|i: int| 0 <= i < nf implies (#[trigger] c1[i]).den != 0 by {
                                if i != fi {
                                    assert(c1[i] == coeffs[i]);
                                }
                            }
                        }
                        lemma_sub_scaled_value(c1, c, ec, fi + 1, nf);
                        let a = fr(coeffs[fi as int]);
                        assert(feq(a, a));
                        lemma_fsub_cong(a, a, fr(p), fmul(fr(c), fr(ec[fi as int])));
                        lemma_fnz_ops(a, fr(p));
                        lemma_feq_trans(fr(v), fsub(a, fr(p)), fsub(a, fmul(fr(c), fr(ec[fi as int]))));
                        match sub_scaled(c1, c, ec, fi + 1, nf) {
                            Some(c2) => {
                                assert(c2[fi as int] == v);
                                assert forall|i: int| fi < i < nf implies #[trigger] c1[i] == coeffs[i] by {}
                            },
                            None => {},
                        }
                    },
                    None => {},
                }
            },
            None => {},
        }
    }
}

/// Each entry `divide_all` computes, times the pivot, gives back the entry divided.
proof fn lemma_divide_all_value(coeffs: Seq<Rational>, pivot: Rational, fi: nat, nf: nat)
    requires
        coeffs.len() == nf,
    ensures
        divide_all(coeffs, pivot, fi, nf) matches Some(c2) ==> {
            &&& c2.len() == nf
            &&& forall|i: int| 0 <= i < fi ==> #[trigger] c2[i] == coeffs[i]
            &&& forall|i: int|
                fi <= i < nf ==> (#[trigger] c2[i]).den != 0 && feq(fmul(fr(c2[i]), fr(pivot)), fr(coeffs[i]))
        },
    decreases nf - fi,
{
    if fi < nf {
        lemma_div_value(coeffs[fi as int], pivot);
        match spec_div(coeffs[fi as int], pivot) {
            Some(v) => {
                let c1 = coeffs.update(fi as int, v);
                lemma_divide_all_value(c1, pivot, fi + 1, nf);
                match divide_all(c1, pivot, fi + 1, nf) {
                    Some(c2) => {
                        assert(c2[fi as int] == v);
                        assert forall|i: int| fi < i < nf implies #[trigger] c1[i] == coeffs[i] by {}
                    },
                    None => {},
                }
            },
            None => {},
        }
    }
}

/// Where `c2[i] == coeffs[i] - c * ec[i]`, the sums follow suit.
proof fn lemma_lin_sub_scaled(c2: Seq<Rational>, coeffs: Seq<Rational>, c: Rational, ec: Seq<Rational>, t: Seq<Frac>, nf: nat)
    requires
        row_nz(c2, nf),
        row_nz(coeffs, nf),
        row_nz(ec, nf),
        frac_nz(t, nf),
        c.den != 0,
        forall|i: int| 0 <= i < nf ==> feq(fr(#[trigger] c2[i]), fsub(fr(coeffs[i]), fmul(fr(c), fr(ec[i])))),
    ensures
        feq(lin(c2, t, 0, nf), fsub(lin(coeffs, t, 0, nf), fmul(fr(c), lin(ec, t, 0, nf)))),
{
    let one: Frac = (1, 1);
    assert forall|i: int| 0 <= i < nf implies feq(fr(#[trigger] c2[i]), fsub(fmul(one, fr(coeffs[i])), fmul(fr(c), fr(ec[i])))) by {
        let a = fr(coeffs[i]);
        let b = fmul(fr(c), fr(ec[i]));
        lemma_fmul_one(a);
        assert(feq(a, fmul(one, a)));
        assert(feq(b, b));
        lemma_fsub_cong(a, fmul(one, a), b, b);
        assert(fnz(a) && fnz(fr(c)) && fnz(fr(ec[i])));
        lemma_fnz_ops(fr(c), fr(ec[i]));
        lemma_fnz_ops(a, b);
        lemma_feq_trans(fr(c2[i]), fsub(a, b), fsub(fmul(one, a), b));
    }
    lemma_lin_comb(c2, coeffs, ec, t, one, fr(c), 0, nf);
    let la = lin(coeffs, t, 0, nf);
    let lb = fmul(fr(c), lin(ec, t, 0, nf));
    lemma_fmul_one(la);
    assert(feq(lb, lb));
    lemma_fsub_cong(fmul(one, la), la, lb, lb);
    lemma_lin_nz(coeffs, t, 0, nf);
    lemma_lin_nz(ec, t, 0, nf);
    lemma_fnz_ops(one, la);
    lemma_fnz_ops(fr(c), lin(ec, t, 0, nf));
    lemma_fnz_ops(fmul(one, la), lb);
    lemma_feq_trans(lin(c2, t, 0, nf), fsub(fmul(one, la), lb), fsub(la, lb));
}

/// Where `c2[i] * p == coeffs[i]`, also `sum(c2[i] * t[i]) * p == sum(coeffs[i] * t[i])`.
proof fn lemma_lin_scale(c2: Seq<Rational>, coeffs: Seq<Rational>, t: Seq<Frac>, p: Frac, j: nat, k: nat)
    requires
        row_nz(c2, k),
        row_nz(coeffs, k),
        frac_nz(t, k),
        fnz(p),
        forall|i: int| j <= i < k ==> feq(fmul(fr(#[trigger] c2[i]), p), fr(coeffs[i])),
    ensures
        feq(fmul(lin(c2, t, j, k), p), lin(coeffs, t, j, k)),
    decreases k - j,
{
    if j >= k {
        assert(feq(fmul(fzero(), p), fzero())) by (nonlinear_arith);
    } else {
        lemma_lin_scale(c2, coeffs, t, p, j + 1, k);
        let a = fr(c2[j as int]);
        let tj = t[j as int];
        let r2 = lin(c2, t, j + 1, k);
        let r = lin(coeffs, t, j + 1, k);
        assert(fnz(a) && fnz(tj) && fnz(fr(coeffs[j as int])));
        lemma_lin_nz(c2, t, j + 1, k);
        lemma_lin_nz(coeffs, t, j + 1, k);
        // (a*t + r2) * p == (a*t)*p + r2*p
        lemma_fadd_mul(fmul(a, tj), r2, p);
        // (a*t)*p == (a*p)*t == coeffs[j]*t
        lemma_fmul_swap(a, tj, p);
        assert(feq(tj, tj));
        lemma_fmul_cong(fmul(a, p), fr(coeffs[j as int]), tj, tj);
        lemma_fnz_ops(a, p);
        lemma_fnz_ops(fmul(a, p), tj);
        lemma_feq_trans(fmul(fmul(a, tj), p), fmul(fmul(a, p), tj), fmul(fr(coeffs[j as int]), tj));
        lemma_fadd_cong(fmul(fmul(a, tj), p), fmul(fr(coeffs[j as int]), tj), fmul(r2, p), r);
        lemma_fnz_ops(a, tj);
        lemma_fnz_ops(fmul(a, tj), p);
        lemma_fnz_ops(r2, p);
        lemma_fnz_ops(fmul(fmul(a, tj), p), fmul(r2, p));
        lemma_feq_trans(
            fmul(lin(c2, t, j, k), p),
            fadd(fmul(fmul(a, tj), p), fmul(r2, p)),
            lin(coeffs, t, j, k),
        );
    }
}

/// The expression `scale_expr` gives, times the pivot, has the value of the one it
/// was given.
pub(crate) proof fn lemma_scale_value(ex: Expr, pivot: Rational, t: Seq<Frac>, nf: nat)
    requires
        expr_nz(ex, nf),
        frac_nz(t, nf),
        pivot.den != 0,
    ensures
        scale_expr(ex, pivot, nf) matches Some(ex2) ==> {
            &&& expr_nz(ex2, nf)
            &&& feq(fmul(expr_value(ex2, t, nf), fr(pivot)), expr_value(ex, t, nf))
        },
{
    let p = fr(pivot);
    lemma_expr_value_nz(ex, t, nf);
    if is_one_spec(pivot) {
        lemma_fmul_one(expr_value(ex, t, nf));
    } else {
        lemma_divide_all_value(ex.0, pivot, 0, nf);
        lemma_div_value(ex.1, pivot);
        match divide_all(ex.0, pivot, 0, nf) {
            Some(c2) => match spec_div(ex.1, pivot) {
                Some(k2) => {
                    let ex2 = (c2, k2);
                    assert(row_nz(c2, nf)) by {
                        assert forall|i: int| 0 <= i < nf implies (#[trigger] c2[i]).den != 0 by {}
                    }
                    lemma_lin_scale(c2, ex.0, t, p, 0, nf);
                    let l2 = lin(c2, t, 0, nf);
                    lemma_lin_nz(c2, t, 0, nf);
                    lemma_fadd_mul(l2, fr(k2), p);
                    lemma_fadd_cong(fmul(l2, p), lin(ex.0, t, 0, nf), fmul(fr(k2), p), fr(ex.1));
                    lemma_fnz_ops(l2, p);
                    lemma_fnz_ops(fr(k2), p);
                    lemma_fnz_ops(fmul(l2, p), fmul(fr(k2), p));
                    lemma_feq_trans(fmul(expr_value(ex2, t, nf), p), fadd(fmul(l2, p), fmul(fr(k2), p)), expr_value(ex, t, nf));
                },
                None => {},
            },
            None => {},
        }
    }
}

/// What `accumulate` computes: the expression `(coeffs, constant)` minus
/// `sum(row[j'] * x[j'])` over the columns `j..m`, where `x[j']` is the value of the
/// known expression of column `j'`.
pub(crate) proof fn lemma_accumulate_value(
    row: Seq<Rational>,
    solved: Seq<Option<Expr>>,
    nf: nat,
    j: nat,
    m: nat,
    coeffs: Seq<Rational>,
    constant: Rational,
    t: Seq<Frac>,
    x: Seq<Frac>,
)
    requires
        j <= m,
        row_nz(row, m),
        frac_nz(t, nf),
        frac_nz(x, m),
        coeffs.len() == nf,
        row_nz(coeffs, nf),
        constant.den != 0,
        forall|i: int|
            j <= i < m ==> (#[trigger] solved[i] matches Some(ex) && expr_nz(ex, nf) && x[i] == expr_value(ex, t, nf)),
    ensures
        accumulate(row, solved, nf, j, m, coeffs, constant) matches Some(e) ==> {
            &&& expr_nz(e, nf)
            &&& feq(expr_value(e, t, nf), fsub(expr_value((coeffs, constant), t, nf), lin(row, x, j, m)))
        },
    decreases m - j,
{
    let v = expr_value((coeffs, constant), t, nf);
    lemma_expr_value_nz((coeffs, constant), t, nf);
    lemma_lin_nz(row, x, j, m);
    if j >= m {
        lemma_fsub_zero(v);
    } else {
        let l1 = lin(row, x, j + 1, m);
        lemma_lin_nz(row, x, j + 1, m);
        let c = row[j as int];
        let tj = fmul(fr(c), x[j as int]);
        assert(fnz(fr(c)) && fnz(x[j as int]));
        lemma_fnz_ops(fr(c), x[j as int]);
        if c.num == 0 {
            lemma_accumulate_value(row, solved, nf, j + 1, m, coeffs, constant, t, x);
            assert(tj.0 == 0) by (nonlinear_arith)
                requires
                    tj.0 == c.num * x[j as int].0,
                    c.num == 0,
            ;
            lemma_fadd_zero(tj, l1);
            assert(feq(v, v));
            lemma_fsub_cong(v, v, l1, lin(row, x, j, m));
            match accumulate(row, solved, nf, j + 1, m, coeffs, constant) {
                Some(e) => {
                    lemma_fnz_ops(v, l1);
                    lemma_feq_trans(expr_value(e, t, nf), fsub(v, l1), fsub(v, lin(row, x, j, m)));
                },
                None => {},
            }
        } else {
            let ex = solved[j as int].unwrap();
            assert(solved[j as int] == Some(ex));
            assert(expr_nz(ex, nf) && x[j as int] == expr_value(ex, t, nf));
            lemma_mul_value(c, ex.1);
            lemma_sub_scaled_value(coeffs, c, ex.0, 0, nf);
            match spec_mul(c, ex.1) {
                Some(p) => {
                    lemma_sub_value(constant, p);
                    match spec_sub(constant, p) {
                        Some(k2) => match sub_scaled(coeffs, c, ex.0, 0, nf) {
                            Some(c2) => {
                                assert(row_nz(c2, nf)) by {
                                    assert forall|i: int| 0 <= i < nf implies (#[trigger] c2[i]).den != 0 by {}
                                }
                                lemma_accumulate_value(row, solved, nf, j + 1, m, c2, k2, t, x);
                                let a = lin(coeffs, t, 0, nf);
                                let b = lin(ex.0, t, 0, nf);
                                let kk = fr(constant);
                                let e1 = fr(ex.1);
                                let cf = fr(c);
                                lemma_lin_nz(coeffs, t, 0, nf);
                                lemma_lin_nz(ex.0, t, 0, nf);
                                lemma_lin_nz(c2, t, 0, nf);
                                lemma_fnz_ops(cf, b);
                                lemma_fnz_ops(cf, e1);
                                lemma_fnz_ops(a, fmul(cf, b));
                                lemma_fnz_ops(kk, fmul(cf, e1));
                                lemma_fnz_ops(kk, fr(p));
                                // the new constant and coefficients
                                assert(feq(kk, kk));
                                lemma_fsub_cong(kk, kk, fr(p), fmul(cf, e1));
                                lemma_feq_trans(fr(k2), fsub(kk, fr(p)), fsub(kk, fmul(cf, e1)));
                                lemma_lin_sub_scaled(c2, coeffs, c, ex.0, t, nf);
                                let v2 = expr_value((c2, k2), t, nf);
                                lemma_fadd_cong(lin(c2, t, 0, nf), fsub(a, fmul(cf, b)), fr(k2), fsub(kk, fmul(cf, e1)));
                                lemma_fsub_add_sub(a, fmul(cf, b), kk, fmul(cf, e1));
                                lemma_fmul_distrib(cf, b, e1);
                                assert(feq(fadd(a, kk), fadd(a, kk)));
                                lemma_fsub_cong(fadd(a, kk), fadd(a, kk), fadd(fmul(cf, b), fmul(cf, e1)), fmul(cf, fadd(b, e1)));
                                lemma_fnz_ops(fsub(a, fmul(cf, b)), fsub(kk, fmul(cf, e1)));
                                lemma_fnz_ops(a, kk);
                                lemma_fnz_ops(fmul(cf, b), fmul(cf, e1));
                                lemma_fnz_ops(fadd(a, kk), fadd(fmul(cf, b), fmul(cf, e1)));
                                lemma_feq_trans(v2, fadd(fsub(a, fmul(cf, b)), fsub(kk, fmul(cf, e1))), fsub(fadd(a, kk), fadd(fmul(cf, b), fmul(cf, e1))));
                                lemma_feq_trans(v2, fsub(fadd(a, kk), fadd(fmul(cf, b), fmul(cf, e1))), fsub(v, tj));
                                // and the rest of the row
                                match accumulate(row, solved, nf, j + 1, m, c2, k2) {
                                    Some(e) => {
                                        lemma_expr_value_nz((c2, k2), t, nf);
                                        assert(feq(l1, l1));
                                        lemma_fsub_cong(v2, fsub(v, tj), l1, l1);
                                        lemma_fsub_sub(v, tj, l1);
                                        lemma_fnz_ops(v2, l1);
                                        lemma_fnz_ops(v, tj);
                                        lemma_fnz_ops(fsub(v, tj), l1);
                                        lemma_feq_trans(expr_value(e, t, nf), fsub(v2, l1), fsub(fsub(v, tj), l1));
                                        lemma_feq_trans(expr_value(e, t, nf), fsub(fsub(v, tj), l1), fsub(v, fadd(tj, l1)));
                                    },
                                    None => {},
                                }
                            },
                            None => {},
                        },
                        None => {},
                    }
                },
                None => {},
            }
        }
    }
}

// ---------------------------------------------------------------------------
// The expressions of a parametric answer
// ---------------------------------------------------------------------------

/// The table of expressions, one per column, that the parametric answer's texts are
/// written from: starting from `solved` (the free columns as their parameters), each
/// pivot column `c-1, ..., 0` gets `(rhs - sum(row[j] * expr[j])) / pivot` over the
/// columns right of it.
pub open spec fn param_table(d: Seq<Seq<Rational>>, bv: Seq<Option<nat>>, m: nat, nf: nat, c: nat, solved: Seq<Option<Expr>>) -> Seq<Option<Expr>>
    decreases c,
{
    if c == 0 {
        solved
    } else {
        let col = (c - 1) as nat;
        match bv[col as int] {
            None => param_table(d, bv, m, nf, col, solved),
            Some(r) => {
                let row = d[r as int];
                match accumulate(row, solved, nf, col + 1, m, zeros(nf), row[m as int]) {
                    None => solved,
                    Some(ex) => match scale_expr(ex, row[col as int], nf) {
                        None => solved,
                        Some(ex2) => param_table(d, bv, m, nf, col, solved.update(col as int, Some(ex2))),
                    },
                }
            },
        }
    }
}

/// The values of the columns for the parameter values `t`.
pub open spec fn param_values(table: Seq<Option<Expr>>, t: Seq<Frac>, nf: nat, m: nat) -> Seq<Frac> {
    Seq::new(
        m,
        |c: int|
            match table[c] {
                Some(e) => expr_value(e, t, nf),
                None => fzero(),
            },
    )
}

/// Each pivot row leads at the column it is the pivot of.
pub open spec fn pivots_lead(d: Seq<Seq<Rational>>, bv: Seq<Option<nat>>, n: nat, m: nat) -> bool {
    forall|col: int| 0 <= col < m ==> (#[trigger] bv[col] matches Some(r) ==> r < n && lead(d[r as int], m) == col)
}

/// Filling the table from column `c` down keeps each pivot row satisfied from its
/// pivot on, and gives every column an expression.
proof fn lemma_param_table(
    d: Seq<Seq<Rational>>,
    vars: Seq<Seq<char>>,
    bv: Seq<Option<nat>>,
    n: nat,
    m: nat,
    nf: nat,
    pnames: Seq<Seq<char>>,
    c: nat,
    solved: Seq<Option<Expr>>,
    params: Seq<(Seq<char>, Seq<char>)>,
    t: Seq<Frac>,
)
    requires
        rows_shaped(d, n, m),
        dens_nz(d, n, m),
        c <= m,
        bv.len() == m,
        frac_nz(t, nf),
        pivots_lead(d, bv, n, m),
        solved.len() == m,
        forall|j: int| 0 <= j < m ==> (#[trigger] solved[j] matches Some(ex) ==> expr_nz(ex, nf)),
        forall|j: int| c <= j < m ==> (#[trigger] solved[j]) is Some,
        forall|j: int| 0 <= j < c ==> ((#[trigger] solved[j]) is Some <==> bv[j] is None),
        forall|col: int|
            c <= col < m ==> (#[trigger] bv[col] matches Some(r) ==> feq(
                lin(d[r as int], param_values(solved, t, nf, m), col as nat, m),
                fr(d[r as int][m as int]),
            )),
        param_loop(d, vars, bv, m, nf, pnames, c, solved, params) is Some,
    ensures
        param_table(d, bv, m, nf, c, solved).len() == m,
        forall|j: int| 0 <= j < m ==> (#[trigger] param_table(d, bv, m, nf, c, solved)[j] matches Some(ex) && expr_nz(ex, nf)),
        forall|j: int| c <= j < m ==> #[trigger] param_table(d, bv, m, nf, c, solved)[j] == solved[j],
        forall|j: int| 0 <= j < m && bv[j] is None ==> #[trigger] param_table(d, bv, m, nf, c, solved)[j] == solved[j],
        forall|col: int|
            0 <= col < m ==> (#[trigger] bv[col] matches Some(r) ==> feq(
                lin(d[r as int], param_values(param_table(d, bv, m, nf, c, solved), t, nf, m), col as nat, m),
                fr(d[r as int][m as int]),
            )),
    decreases c,
{
    if c > 0 {
        let col = (c - 1) as nat;
        match bv[col as int] {
            None => {
                lemma_param_table(d, vars, bv, n, m, nf, pnames, col, solved, params, t);
            },
            Some(r) => {
                let row = d[r as int];
                let x = param_values(solved, t, nf, m);
                assert(r < n && lead(row, m) == col);
                lemma_lead_nonzero(row, m, 0);
                assert(row_nz(row, m + 1)) by {
                    assert forall|j: int| 0 <= j < m + 1 implies (#[trigger] row[j]).den != 0 by {
                        assert(d[r as int][j].den != 0);
                    }
                }
                assert(frac_nz(x, m)) by {
                    assert forall|j: int| 0 <= j < m implies fnz(#[trigger] x[j]) by {
                        match solved[j] {
                            Some(e) => lemma_expr_value_nz(e, t, nf),
                            None => {},
                        }
                    }
                }
                let z = zeros(nf);
                assert(row_nz(z, nf));
                lemma_accumulate_value(row, solved, nf, col + 1, m, z, row[m as int], t, x);
                let ex = accumulate(row, solved, nf, col + 1, m, z, row[m as int]).unwrap();
                lemma_scale_value(ex, row[col as int], t, nf);
                let ex2 = scale_expr(ex, row[col as int], nf).unwrap();
                let solved2 = solved.update(col as int, Some(ex2));
                let x2 = param_values(solved2, t, nf, m);
                // the pivot row is now satisfied from its pivot on
                let b = fr(row[m as int]);
                let l = lin(row, x, col + 1, m);
                lemma_lin_agree(row, x2, x, col + 1, m);
                assert(x2[col as int] == expr_value(ex2, t, nf));
                let piv = fr(row[col as int]);
                let v2 = expr_value(ex2, t, nf);
                let v = expr_value(ex, t, nf);
                lemma_expr_value_nz(ex2, t, nf);
                lemma_expr_value_nz(ex, t, nf);
                lemma_lin_nz(row, x, col + 1, m);
                // v == b - l
                lemma_lin_zero_row(z, t, 0, nf);
                lemma_lin_nz(z, t, 0, nf);
                lemma_fadd_zero(lin(z, t, 0, nf), b);
                assert(feq(l, l));
                lemma_fsub_cong(expr_value((z, row[m as int]), t, nf), b, l, l);
                lemma_expr_value_nz((z, row[m as int]), t, nf);
                lemma_fnz_ops(expr_value((z, row[m as int]), t, nf), l);
                lemma_feq_trans(v, fsub(expr_value((z, row[m as int]), t, nf), l), fsub(b, l));
                // piv * v2 == v2 * piv == v
                lemma_fmul_comm(piv, v2);
                lemma_fnz_ops(v2, piv);
                lemma_feq_trans(fmul(piv, v2), fmul(v2, piv), v);
                lemma_feq_trans(fmul(piv, v2), v, fsub(b, l));
                lemma_fadd_cong(fmul(piv, v2), fsub(b, l), l, l);
                lemma_fsub_add_cancel(b, l);
                lemma_fnz_ops(b, l);
                lemma_fnz_ops(fsub(b, l), l);
                assert(lin(row, x2, col, m) == fadd(fmul(piv, v2), l));
                lemma_feq_trans(lin(row, x2, col, m), fadd(fsub(b, l), l), b);
                // the pivot rows to the right keep their sums
                assert forall|col2: int|
                    col <= col2 < m implies (#[trigger] bv[col2] matches Some(r2) ==> feq(
                        lin(d[r2 as int], x2, col2 as nat, m),
                        fr(d[r2 as int][m as int]),
                    )) by {
                    if col2 > col {
                        match bv[col2] {
                            Some(r2) => {
                                lemma_lin_agree(d[r2 as int], x2, x, col2 as nat, m);
                            },
                            None => {},
                        }
                    }
                }
                assert forall|j: int| 0 <= j < m implies (#[trigger] solved2[j] matches Some(e) ==> expr_nz(e, nf)) by {
                    if j != col {
                        assert(solved2[j] == solved[j]);
                    }
                }
                lemma_param_table(d, vars, bv, n, m, nf, pnames, col, solved2, params.push((vars[col as int], format_expr(ex2, pnames, nf).unwrap())), t);
            },
        }
    }
}

// ---------------------------------------------------------------------------
// The pivots of an echelon matrix
// ---------------------------------------------------------------------------

proof fn lemma_lead_nonzero(row: Seq<Rational>, m: nat, j: nat)
    ensures
        lead_from(row, j, m) < m ==> row[lead_from(row, j, m) as int].num != 0,
        j <= m ==> j <= lead_from(row, j, m) <= m,
    decreases m - j,
{
    if j < m && row[j as int].num == 0 {
        lemma_lead_nonzero(row, m, j + 1);
    }
}

/// Scanning an echelon matrix for pivots from column `col` and row `r` on gives each
/// column at most one pivot row, which leads at that column, and makes every row
/// from `r` on with a non-zero coefficient the pivot row of its leading column.
proof fn lemma_pivot_struct(d: Seq<Seq<Rational>>, n: nat, m: nat, col: nat, r: nat, bv0: Seq<Option<nat>>)
    requires
        echelon(d, n, m),
        col <= m,
        r <= n,
        bv0.len() == m,
        forall|c: int| col <= c < m ==> (#[trigger] bv0[c]) is None,
        r < n ==> lead(d[r as int], m) >= col,
    ensures
        pivot_rows(d, n, m, col, r, bv0).len() == m,
        forall|c: int| 0 <= c < col ==> #[trigger] pivot_rows(d, n, m, col, r, bv0)[c] == bv0[c],
        forall|c: int|
            col <= c < m ==> (#[trigger] pivot_rows(d, n, m, col, r, bv0)[c] matches Some(k) ==> r <= k < n && lead(d[k as int], m) == c),
        forall|k: int|
            r <= k < n && #[trigger] lead(d[k], m) < m ==> pivot_rows(d, n, m, col, r, bv0)[lead(d[k], m) as int] == Some(k as nat),
    decreases m - col,
{
    let res = pivot_rows(d, n, m, col, r, bv0);
    if col >= m || r >= n {
        assert forall|k: int| r <= k < n && #[trigger] lead(d[k], m) < m implies res[lead(d[k], m) as int] == Some(k as nat) by {
            if k > r {
                assert(lead(d[r as int], m) < lead(d[k], m));
            }
        }
    } else {
        lemma_lead_nonzero(d[r as int], m, 0);
        if d[r as int][col as int].num != 0 {
            lemma_lead_le(d[r as int], m, 0, col);
            assert(lead(d[r as int], m) == col);
            let b2 = bv0.update(col as int, Some(r));
            if r + 1 < n {
                lemma_lead_nonzero(d[r + 1int], m, 0);
                if lead(d[r + 1int], m) < m {
                    assert(lead(d[r as int], m) < lead(d[r + 1int], m));
                }
            }
            lemma_pivot_struct(d, n, m, col + 1, r + 1, b2);
            assert(res[col as int] == Some(r));
        } else {
            assert(lead(d[r as int], m) != col);
            lemma_pivot_struct(d, n, m, col + 1, r, bv0);
            assert(res[col as int] is None);
        }
    }
}

/// Every column without a pivot is listed among the free columns.
proof fn lemma_free_complete(bv: Seq<Option<nat>>, k: nat)
    requires
        k <= bv.len(),
    ensures
        forall|c: int| 0 <= c < k && (#[trigger] bv[c]) is None ==> exists|i: int| 0 <= i < free_columns(bv, k).len() && free_columns(bv, k)[i] == c,
    decreases k,
{
    if k > 0 {
        lemma_free_complete(bv, (k - 1) as nat);
        let f0 = free_columns(bv, (k - 1) as nat);
        let f = free_columns(bv, k);
        assert forall|c: int| 0 <= c < k && (#[trigger] bv[c]) is None implies exists|i: int| 0 <= i < f.len() && f[i] == c by {
            if c == k - 1 {
                assert(f[f.len() - 1] == c);
            } else {
                let i = choose|i: int| 0 <= i < f0.len() && f0[i] == c;
                if bv[k - 1] is None {
                    assert(f[i] == f0[i]);
                }
            }
        }
    }
}

/// The seed gives each free column `free[i]` its own parameter `i`, and nothing to
/// the other columns.
proof fn lemma_seed_entries(free: Seq<nat>, k: nat, m: nat, nf: nat)
    requires
        k <= free.len(),
        forall|i: int| 0 <= i < k ==> #[trigger] free[i] < m,
        forall|i: int, j: int| 0 <= i < j < k ==> free[i] < free[j],
    ensures
        seed(free, k, m, nf).len() == m,
        forall|i: int| 0 <= i < k ==> seed(free, k, m, nf)[#[trigger] free[i] as int] == Some((unit_vec(nf, i as nat), zero_spec())),
        forall|c: int| 0 <= c < m && (forall|i: int| 0 <= i < k ==> #[trigger] free[i] != c) ==> (#[trigger] seed(free, k, m, nf)[c]) is None,
        forall|c: int| 0 <= c < m ==> (#[trigger] seed(free, k, m, nf)[c] matches Some(ex) ==> expr_nz(ex, nf)),
    decreases k,
{
    if k > 0 {
        lemma_seed_entries(free, (k - 1) as nat, m, nf);
        let s = seed(free, (k - 1) as nat, m, nf);
        let e = (unit_vec(nf, (k - 1) as nat), zero_spec());
        let s2 = s.update(free[k - 1] as int, Some(e));
        assert(expr_nz(e, nf)) by {
            assert forall|j: int| 0 <= j < nf implies (#[trigger] e.0[j]).den != 0 by {}
        }
        assert forall|i: int| 0 <= i < k implies s2[#[trigger] free[i] as int] == Some((unit_vec(nf, i as nat), zero_spec())) by {
            if i < k - 1 {
                assert(free[i] < free[k - 1]);
            }
        }
        assert forall|c: int| 0 <= c < m && (forall|i: int| 0 <= i < k ==> #[trigger] free[i] != c) implies (#[trigger] s2[c]) is None by {
            assert(free[k - 1] != c);
        }
        assert forall|c: int| 0 <= c < m implies (#[trigger] s2[c] matches Some(ex) ==> expr_nz(ex, nf)) by {
            if c != free[k - 1] {
                assert(s2[c] == s[c]);
            }
        }
    }
}

// ---------------------------------------------------------------------------
// The law
// ---------------------------------------------------------------------------

/// The matrix at the end of forward elimination.
pub open spec fn final_rows(a: SpecMatrix) -> Seq<Seq<Rational>> {
    match elim_from(a.data, a.vars, a.rows, a.cols, 0, 0, seq![initial_step(a)]) {
        Some((d, steps)) => d,
        None => a.data,
    }
}

/// The columns of the rows `d` without a pivot, which become the parameters.
pub open spec fn free_cols(d: Seq<Seq<Rational>>, n: nat, m: nat) -> Seq<nat> {
    free_columns(basic_columns(d, n, m), m)
}

/// The expressions of the parametric answer read off the rows `d`, one per column.
pub open spec fn param_exprs_of(d: Seq<Seq<Rational>>, n: nat, m: nat) -> Seq<Option<Expr>> {
    let bv = basic_columns(d, n, m);
    let nf = free_cols(d, n, m).len();
    param_table(d, bv, m, nf, m, seed(free_cols(d, n, m), nf, m, nf))
}

/// The columns without a pivot after elimination, which become the parameters.
pub open spec fn free_of(a: SpecMatrix) -> Seq<nat> {
    free_cols(final_rows(a), a.rows, a.cols)
}

/// The expressions of the parametric answer elimination gives, one per column.
pub open spec fn param_exprs(a: SpecMatrix) -> Seq<Option<Expr>> {
    param_exprs_of(final_rows(a), a.rows, a.cols)
}

/// What a parametric answer read off rows in echelon form leaves: its pivots (each
/// pivot row leads at its column; every row with a non-zero coefficient is a pivot
/// row; the other rows are zero, right-hand side included), and the table of
/// expressions, whose values satisfy every pivot row from its pivot on.
proof fn lemma_param_echelon(d: Seq<Seq<Rational>>, vars: Seq<Seq<char>>, n: nat, m: nat, ps: Seq<(Seq<char>, Seq<char>)>, t: Seq<Frac>)
    requires
        rows_shaped(d, n, m),
        dens_nz(d, n, m),
        echelon(d, n, m),
        vars.len() == m,
        solution_spec(d, vars, n, m) == Some(SpecSolution::Parametric(ps)),
        frac_nz(t, free_cols(d, n, m).len()),
    ensures
        basic_columns(d, n, m).len() == m,
        pivots_lead(d, basic_columns(d, n, m), n, m),
        forall|k: int|
            0 <= k < n && #[trigger] lead(d[k], m) < m ==> basic_columns(d, n, m)[lead(d[k], m) as int]
                == Some(k as nat),
        forall|k: int, j: int|
            0 <= k < n && lead(d[k], m) == m && 0 <= j <= m ==> (#[trigger] d[k][j]).num == 0,
        forall|i: int| 0 <= i < free_cols(d, n, m).len() ==> #[trigger] free_cols(d, n, m)[i] < m,
        forall|c: int|
            0 <= c < m ==> ((#[trigger] basic_columns(d, n, m)[c]) is None <==> exists|i: int|
                0 <= i < free_cols(d, n, m).len() && free_cols(d, n, m)[i] == c),
        param_exprs_of(d, n, m).len() == m,
        forall|c: int| 0 <= c < m ==> (#[trigger] param_exprs_of(d, n, m)[c] matches Some(ex) && expr_nz(ex, free_cols(d, n, m).len())),
        forall|i: int|
            0 <= i < free_cols(d, n, m).len() ==> param_exprs_of(d, n, m)[#[trigger] free_cols(d, n, m)[i] as int] == Some(
                (unit_vec(free_cols(d, n, m).len(), i as nat), zero_spec()),
            ),
        forall|col: int|
            0 <= col < m ==> (#[trigger] basic_columns(d, n, m)[col] matches Some(r) ==> feq(
                lin(d[r as int], param_values(param_exprs_of(d, n, m), t, free_cols(d, n, m).len(), m), col as nat, m),
                fr(d[r as int][m as int]),
            )),
{
    let bv0 = Seq::new(m, |i: int| None::<nat>);
    let bv = basic_columns(d, n, m);
    lemma_pivot_struct(d, n, m, 0, 0, bv0);
    let free = free_columns(bv, m);
    let nf = free.len();
    lemma_free_columns(bv, m);
    lemma_free_complete(bv, m);
    lemma_seed_entries(free, nf, m, nf);
    let sd = seed(free, nf, m, nf);
    assert(pivots_lead(d, bv, n, m));
    assert forall|c: int| 0 <= c < m implies ((#[trigger] bv[c]) is None <==> exists|i: int| 0 <= i < nf && free[i] == c) by {
        if exists|i: int| 0 <= i < nf && free[i] == c {
            let i = choose|i: int| 0 <= i < nf && free[i] == c;
            assert(bv[free[i] as int] is None);
        }
    }
    assert forall|j: int| 0 <= j < m implies ((#[trigger] sd[j]) is Some <==> bv[j] is None) by {
        if bv[j] is None {
            let i = choose|i: int| 0 <= i < free.len() && free[i] == j;
            assert(sd[free[i] as int] is Some);
        } else {
            assert forall|i: int| 0 <= i < nf implies #[trigger] free[i] != j by {
                assert(bv[free[i] as int] is None);
            }
        }
    }
    let pnames = param_names(nf);
    lemma_param_table(d, vars, bv, n, m, nf, pnames, m, sd, Seq::empty(), t);
    let tab = param_table(d, bv, m, nf, m, sd);
    assert(tab == param_exprs_of(d, n, m));
    assert forall|i: int| 0 <= i < nf implies tab[#[trigger] free[i] as int] == Some((unit_vec(nf, i as nat), zero_spec())) by {
        assert(bv[free[i] as int] is None);
    }
    // rows without a pivot are zero, right-hand side included
    assert forall|k: int, j: int| 0 <= k < n && lead(d[k], m) == m && 0 <= j <= m implies (#[trigger] d[k][j]).num == 0 by {
        lemma_lead_zeros(d[k], m, 0);
        assert forall|c: int| 0 <= c < m implies (#[trigger] d[k][c]).num == 0 by {}
        law_solution_kind(d, vars, n, m);
        assert(!row_inconsistent(d[k], m));
    }
}

/// What a parametric answer of elimination leaves: the final matrix, in echelon
/// form, with what [`lemma_param_echelon`] says of it.
proof fn lemma_param_final(a: SpecMatrix, d: Seq<Seq<Rational>>, st: Seq<SpecStep>, ps: Seq<(Seq<char>, Seq<char>)>, t: Seq<Frac>)
    requires
        shaped(a),
        dens_nz(a.data, a.rows, a.cols),
        elim_from(a.data, a.vars, a.rows, a.cols, 0, 0, seq![initial_step(a)]) == Some((d, st)),
        solution_spec(d, a.vars, a.rows, a.cols) == Some(SpecSolution::Parametric(ps)),
        frac_nz(t, free_of(a).len()),
    ensures
        final_rows(a) == d,
        rows_shaped(d, a.rows, a.cols),
        dens_nz(d, a.rows, a.cols),
        echelon(d, a.rows, a.cols),
        basic_columns(d, a.rows, a.cols).len() == a.cols,
        pivots_lead(d, basic_columns(d, a.rows, a.cols), a.rows, a.cols),
        forall|k: int|
            0 <= k < a.rows && #[trigger] lead(d[k], a.cols) < a.cols ==> basic_columns(d, a.rows, a.cols)[lead(d[k], a.cols) as int]
                == Some(k as nat),
        forall|k: int, j: int|
            0 <= k < a.rows && lead(d[k], a.cols) == a.cols && 0 <= j <= a.cols ==> (#[trigger] d[k][j]).num == 0,
        forall|i: int| 0 <= i < free_of(a).len() ==> #[trigger] free_of(a)[i] < a.cols,
        forall|c: int|
            0 <= c < a.cols ==> ((#[trigger] basic_columns(d, a.rows, a.cols)[c]) is None <==> exists|i: int|
                0 <= i < free_of(a).len() && free_of(a)[i] == c),
        param_exprs(a).len() == a.cols,
        forall|c: int| 0 <= c < a.cols ==> (#[trigger] param_exprs(a)[c] matches Some(ex) && expr_nz(ex, free_of(a).len())),
        forall|i: int|
            0 <= i < free_of(a).len() ==> param_exprs(a)[#[trigger] free_of(a)[i] as int] == Some(
                (unit_vec(free_of(a).len(), i as nat), zero_spec()),
            ),
        forall|col: int|
            0 <= col < a.cols ==> (#[trigger] basic_columns(d, a.rows, a.cols)[col] matches Some(r) ==> feq(
                lin(d[r as int], param_values(param_exprs(a), t, free_of(a).len(), a.cols), col as nat, a.cols),
                fr(d[r as int][a.cols as int]),
            )),
{
    let n = a.rows;
    let m = a.cols;
    let s0 = seq![initial_step(a)];
    assert(s0.last().matrix.data == a.data);
    assert(rows_shaped(a.data, n, m));
    lemma_elim_from_echelon(a.data, a.vars, n, m, 0, 0, s0);
    law_steps_keep_shape(a);
    assert(gauss_spec(a) == Some((st, SpecSolution::Parametric(ps))));
    assert(step_keeps_shape(st[st.len() - 1], a));
    assert(rows_shaped(d, n, m));
    assert(final_rows(a) == d);
    let zs = Seq::new(m, |i: int| fzero());
    assert(vec_nz(zs, m));
    lemma_elim_from_solutions(a.data, a.vars, n, m, 0, 0, s0, zs);
    lemma_param_echelon(d, a.vars, n, m, ps, t);
}

/// A parametric answer read off rows in echelon form describes solutions: every
/// column has an expression, each free column `free[i]` is its own parameter `i`,
/// and for every choice of parameter values (with non-zero denominators) the values
/// of the expressions satisfy every equation (row).
pub proof fn law_echelon_parametric_solution_solves(d: Seq<Seq<Rational>>, vars: Seq<Seq<char>>, n: nat, m: nat, t: Seq<Frac>)
    requires
        rows_shaped(d, n, m),
        dens_nz(d, n, m),
        echelon(d, n, m),
        vars.len() == m,
        vec_nz(t, free_cols(d, n, m).len()),
    ensures
        solution_spec(d, vars, n, m) matches Some(SpecSolution::Parametric(ps)) ==> {
            &&& param_exprs_of(d, n, m).len() == m
            &&& forall|c: int| 0 <= c < m ==> (#[trigger] param_exprs_of(d, n, m)[c]) is Some
            &&& forall|i: int|
                0 <= i < free_cols(d, n, m).len() ==> param_exprs_of(d, n, m)[#[trigger] free_cols(d, n, m)[i] as int] == Some(
                    (unit_vec(free_cols(d, n, m).len(), i as nat), zero_spec()),
                )
            &&& solves(d, param_values(param_exprs_of(d, n, m), t, free_cols(d, n, m).len(), m), n, m)
        },
{
    match solution_spec(d, vars, n, m) {
        Some(SpecSolution::Parametric(ps)) => {
            lemma_param_echelon(d, vars, n, m, ps, t);
            let nf = free_cols(d, n, m).len();
            let bv = basic_columns(d, n, m);
            let tab = param_exprs_of(d, n, m);
            let x = param_values(tab, t, nf, m);
            assert(vec_nz(x, m)) by {
                assert forall|j: int| 0 <= j < m implies fnz(#[trigger] x[j]) by {
                    lemma_expr_value_nz(tab[j].unwrap(), t, nf);
                }
            }
            // every row of the final matrix is satisfied
            assert forall|k: int| 0 <= k < n implies satisfies(#[trigger] d[k], x, m) by {
                assert(row_nz(d[k], m + 1)) by {
                    assert forall|j: int| 0 <= j < m + 1 implies (#[trigger] d[k][j]).den != 0 by {}
                }
                lemma_lead_zeros(d[k], m, 0);
                let c = lead(d[k], m);
                if c < m {
                    assert(bv[c as int] == Some(k as nat));
                    assert forall|j: int| 0 <= j < c implies (#[trigger] d[k][j]).num == 0 by {}
                    lemma_lin_zero_prefix(d[k], x, 0, c, m);
                    lemma_lin_nz(d[k], x, c, m);
                    lemma_feq_trans(lin(d[k], x, 0, m), lin(d[k], x, c, m), fr(d[k][m as int]));
                } else {
                    assert forall|j: int| 0 <= j < m implies (#[trigger] d[k][j]).num == 0 by {}
                    lemma_lin_zero_row(d[k], x, 0, m);
                    let l = lin(d[k], x, 0, m);
                    let b = fr(d[k][m as int]);
                    assert(b.0 == 0);
                    assert(l.0 * b.1 == b.0 * l.1) by (nonlinear_arith)
                        requires
                            l.0 == 0,
                            b.0 == 0,
                    ;
                }
            }
        },
        _ => {},
    }
}

/// A parametric answer describes solutions: where elimination answers with
/// expressions in free parameters, every column has an expression, each free column
/// `free[i]` is its own parameter `i`, and for every choice of parameter values the
/// values of the expressions satisfy every equation of the matrix.
pub proof fn law_parametric_solution_solves(a: SpecMatrix, t: Seq<Frac>)
    requires
        shaped(a),
        dens_nz(a.data, a.rows, a.cols),
        vec_nz(t, free_of(a).len()),
    ensures
        gauss_spec(a) matches Some((steps, SpecSolution::Parametric(ps))) ==> {
            &&& param_exprs(a).len() == a.cols
            &&& forall|c: int| 0 <= c < a.cols ==> (#[trigger] param_exprs(a)[c]) is Some
            &&& forall|i: int|
                0 <= i < free_of(a).len() ==> param_exprs(a)[#[trigger] free_of(a)[i] as int] == Some(
                    (unit_vec(free_of(a).len(), i as nat), zero_spec()),
                )
            &&& solves(a.data, param_values(param_exprs(a), t, free_of(a).len(), a.cols), a.rows, a.cols)
        },
{
    let n = a.rows;
    let m = a.cols;
    let s0 = seq![initial_step(a)];
    match elim_from(a.data, a.vars, n, m, 0, 0, s0) {
        Some((d, st)) => {
            match solution_spec(d, a.vars, n, m) {
                Some(SpecSolution::Parametric(ps)) => {
                    lemma_param_final(a, d, st, ps, t);
                    law_echelon_parametric_solution_solves(d, a.vars, n, m, t);
                    let nf = free_of(a).len();
                    let x = param_values(param_exprs(a), t, nf, m);
                    assert(vec_nz(x, m)) by {
                        assert forall|j: int| 0 <= j < m implies fnz(#[trigger] x[j]) by {
                            lemma_expr_value_nz(param_exprs(a)[j].unwrap(), t, nf);
                        }
                    }
                    assert(s0.last().matrix.data == a.data);
                    assert(rows_shaped(a.data, n, m));
                    lemma_elim_from_solutions(a.data, a.vars, n, m, 0, 0, s0, x);
                },
                _ => {},
            }
        },
        None => {},
    }
}

/// `sum(unit_i[k] * t[k])` over `j..nf` is `t[i]` when `j <= i`, else zero.
proof fn lemma_lin_unit(nf: nat, i: nat, t: Seq<Frac>, j: nat)
    requires
        i < nf,
        j <= nf,
        frac_nz(t, nf),
    ensures
        fnz(lin(unit_vec(nf, i), t, j, nf)),
        j <= i ==> feq(lin(unit_vec(nf, i), t, j, nf), t[i as int]),
        j > i ==> lin(unit_vec(nf, i), t, j, nf).0 == 0,
    decreases nf - j,
{
    let u = unit_vec(nf, i);
    assert(row_nz(u, nf));
    lemma_lin_nz(u, t, j, nf);
    if j < nf {
        lemma_lin_unit(nf, i, t, j + 1);
        let term = fmul(fr(u[j as int]), t[j as int]);
        let rest = lin(u, t, j + 1, nf);
        assert(fnz(t[j as int]));
        lemma_fnz_ops(fr(u[j as int]), t[j as int]);
        if j == i {
            assert(fr(u[j as int]) == (1int, 1int));
            lemma_fmul_one(t[j as int]);
            lemma_fadd_zero_right(term, rest);
            lemma_feq_trans(lin(u, t, j, nf), term, t[i as int]);
        } else {
            assert(fr(u[j as int]) == (0int, 1int));
            assert(term.0 == 0) by (nonlinear_arith)
                requires
                    term.0 == 0 * t[j as int].0,
            ;
            lemma_fadd_zero(term, rest);
            if j < i {
                lemma_lin_nz(u, t, j + 1, nf);
                lemma_feq_trans(lin(u, t, j, nf), rest, t[i as int]);
            } else {
                assert(lin(u, t, j, nf).0 == 0) by (nonlinear_arith)
                    requires
                        lin(u, t, j, nf).0 == term.0 * rest.1 + rest.0 * term.1,
                        term.0 == 0,
                        rest.0 == 0,
                ;
            }
        }
    }
}

/// Two value vectors that agree on the free columns and both satisfy every pivot row
/// from its pivot on agree from column `k` on.
proof fn lemma_agree_down(d: Seq<Seq<Rational>>, bv: Seq<Option<nat>>, n: nat, m: nat, x: Seq<Frac>, y: Seq<Frac>, k: nat)
    requires
        rows_shaped(d, n, m),
        dens_nz(d, n, m),
        bv.len() == m,
        pivots_lead(d, bv, n, m),
        k <= m,
        vec_nz(x, m),
        vec_nz(y, m),
        forall|c: int| 0 <= c < m && (#[trigger] bv[c]) is None ==> feq(x[c], y[c]),
        forall|c: int|
            0 <= c < m ==> (#[trigger] bv[c] matches Some(r) ==> feq(lin(d[r as int], x, c as nat, m), fr(d[r as int][m as int])) && feq(
                lin(d[r as int], y, c as nat, m),
                fr(d[r as int][m as int]),
            )),
    ensures
        forall|j: int| k <= j < m ==> feq(#[trigger] x[j], y[j]),
    decreases m - k,
{
    if k < m {
        lemma_agree_down(d, bv, n, m, x, y, k + 1);
        match bv[k as int] {
            None => {},
            Some(r) => {
                let row = d[r as int];
                assert(r < n && lead(row, m) == k);
                lemma_lead_nonzero(row, m, 0);
                assert(row_nz(row, m + 1)) by {
                    assert forall|t: int| 0 <= t < m + 1 implies (#[trigger] row[t]).den != 0 by {
                        assert(d[r as int][t].den != 0);
                    }
                }
                let piv = fr(row[k as int]);
                let b = fr(row[m as int]);
                let lx = lin(row, x, k + 1, m);
                let ly = lin(row, y, k + 1, m);
                lemma_lin_cong(row, x, y, k + 1, m);
                lemma_lin_nz(row, x, k + 1, m);
                lemma_lin_nz(row, y, k + 1, m);
                let px = fmul(piv, x[k as int]);
                let py = fmul(piv, y[k as int]);
                assert(fnz(piv) && fnz(x[k as int]) && fnz(y[k as int]) && fnz(b));
                lemma_fnz_ops(piv, x[k as int]);
                lemma_fnz_ops(piv, y[k as int]);
                lemma_feq_trans(fadd(px, lx), b, fadd(py, ly));
                assert(feq(py, py));
                lemma_fadd_cong(py, py, ly, lx);
                lemma_fnz_ops(py, ly);
                lemma_feq_trans(fadd(px, lx), fadd(py, ly), fadd(py, lx));
                lemma_fadd_cancel(px, py, lx);
                lemma_fmul_cancel(piv, x[k as int], y[k as int]);
            },
        }
    }
}

/// A parametric answer read off rows in echelon form describes every solution: any
/// values (with non-zero denominators, one per column) that satisfy every equation
/// (row) are, column by column, the values of the expressions for the parameter
/// values that they give the free columns.
pub proof fn law_echelon_parametric_solution_is_general(d: Seq<Seq<Rational>>, vars: Seq<Seq<char>>, n: nat, m: nat, x: Seq<Frac>)
    requires
        rows_shaped(d, n, m),
        dens_nz(d, n, m),
        echelon(d, n, m),
        vars.len() == m,
        vec_nz(x, m),
        solves(d, x, n, m),
    ensures
        solution_spec(d, vars, n, m) matches Some(SpecSolution::Parametric(ps)) ==> forall|c: int|
            0 <= c < m ==> feq(
                #[trigger] x[c],
                param_values(
                    param_exprs_of(d, n, m),
                    Seq::new(free_cols(d, n, m).len(), |i: int| x[free_cols(d, n, m)[i] as int]),
                    free_cols(d, n, m).len(),
                    m,
                )[c],
            ),
{
    match solution_spec(d, vars, n, m) {
        Some(SpecSolution::Parametric(ps)) => {
            let free = free_cols(d, n, m);
            let nf = free.len();
            let t = Seq::new(nf, |i: int| x[free[i] as int]);
            assert(free == free_columns(basic_columns(d, n, m), m));
            lemma_pivot_all(d, n, m, 0, 0, Seq::new(m, |i: int| None::<nat>));
            lemma_free_columns(basic_columns(d, n, m), m);
            assert(frac_nz(t, nf)) by {
                assert forall|i: int| 0 <= i < nf implies fnz(#[trigger] t[i]) by {
                    assert(free[i] < m);
                }
            }
            lemma_param_echelon(d, vars, n, m, ps, t);
            let bv = basic_columns(d, n, m);
            let tab = param_exprs_of(d, n, m);
            let y = param_values(tab, t, nf, m);
            assert(vec_nz(y, m)) by {
                assert forall|j: int| 0 <= j < m implies fnz(#[trigger] y[j]) by {
                    lemma_expr_value_nz(tab[j].unwrap(), t, nf);
                }
            }
            // the free columns: each is its own parameter
            assert forall|c: int| 0 <= c < m && (#[trigger] bv[c]) is None implies feq(x[c], y[c]) by {
                let i = choose|i: int| 0 <= i < nf && free[i] == c;
                lemma_lin_unit(nf, i as nat, t, 0);
                let lu = lin(unit_vec(nf, i as nat), t, 0, nf);
                assert(tab[c] == Some((unit_vec(nf, i as nat), zero_spec())));
                assert(y[c] == fadd(lu, fr(zero_spec())));
                lemma_fadd_zero_right(lu, fr(zero_spec()));
                lemma_feq_trans(y[c], lu, t[i]);
            }
            // the solution satisfies every pivot row from its pivot on
            assert forall|c: int| 0 <= c < m implies (#[trigger] bv[c] matches Some(r) ==> feq(
                lin(d[r as int], x, c as nat, m),
                fr(d[r as int][m as int]),
            )) by {
                match bv[c] {
                    Some(r) => {
                        assert(satisfies(d[r as int], x, m));
                        assert(row_nz(d[r as int], m + 1)) by {
                            assert forall|j: int| 0 <= j < m + 1 implies (#[trigger] d[r as int][j]).den != 0 by {}
                        }
                        lemma_lead_zeros(d[r as int], m, 0);
                        assert forall|j: int| 0 <= j < c implies (#[trigger] d[r as int][j]).num == 0 by {}
                        lemma_lin_zero_prefix(d[r as int], x, 0, c as nat, m);
                        lemma_lin_nz(d[r as int], x, 0, m);
                        lemma_feq_trans(lin(d[r as int], x, c as nat, m), lin(d[r as int], x, 0, m), fr(d[r as int][m as int]));
                    },
                    None => {},
                }
            }
            lemma_agree_down(d, bv, n, m, x, y, 0);
        },
        _ => {},
    }
}

/// A parametric answer describes every solution: any values (with non-zero
/// denominators, one per column) that satisfy every equation of the matrix are,
/// column by column, the values of the expressions for the parameter values that
/// they give the free columns.
pub proof fn law_parametric_solution_is_general(a: SpecMatrix, x: Seq<Frac>)
    requires
        shaped(a),
        dens_nz(a.data, a.rows, a.cols),
        vec_nz(x, a.cols),
        solves(a.data, x, a.rows, a.cols),
    ensures
        gauss_spec(a) matches Some((steps, SpecSolution::Parametric(ps))) ==> forall|c: int|
            0 <= c < a.cols ==> feq(
                #[trigger] x[c],
                param_values(
                    param_exprs(a),
                    Seq::new(free_of(a).len(), |i: int| x[free_of(a)[i] as int]),
                    free_of(a).len(),
                    a.cols,
                )[c],
            ),
{
    let n = a.rows;
    let m = a.cols;
    let s0 = seq![initial_step(a)];
    match elim_from(a.data, a.vars, n, m, 0, 0, s0) {
        Some((d, st)) => {
            match solution_spec(d, a.vars, n, m) {
                Some(SpecSolution::Parametric(ps)) => {
                    assert(final_rows(a) == d);
                    let free = free_of(a);
                    let nf = free.len();
                    let t = Seq::new(nf, |i: int| x[free[i] as int]);
                    assert(frac_nz(t, nf)) by {
                        lemma_pivot_all(d, n, m, 0, 0, Seq::new(m, |i: int| None::<nat>));
                        lemma_free_columns(basic_columns(d, n, m), m);
                        assert forall|i: int| 0 <= i < nf implies fnz(#[trigger] t[i]) by {
                            assert(free[i] < m);
                        }
                    }
                    lemma_param_final(a, d, st, ps, t);
                    assert(s0.last().matrix.data == a.data);
                    assert(rows_shaped(a.data, n, m));
                    lemma_elim_from_solutions(a.data, a.vars, n, m, 0, 0, s0, x);
                    law_echelon_parametric_solution_is_general(d, a.vars, n, m, x);
                },
                _ => {},
            }
        },
        None => {},
    }
}

/// Filling the table from column `c` down leaves the columns from `c` on as they are.
proof fn lemma_param_table_keeps(d: Seq<Seq<Rational>>, bv: Seq<Option<nat>>, m: nat, nf: nat, c: nat, solved: Seq<Option<Expr>>)
    requires
        c <= solved.len(),
    ensures
        param_table(d, bv, m, nf, c, solved).len() == solved.len(),
        forall|j: int| c <= j < solved.len() ==> #[trigger] param_table(d, bv, m, nf, c, solved)[j] == solved[j],
    decreases c,
{
    if c > 0 {
        let col = (c - 1) as nat;
        match bv[col as int] {
            None => lemma_param_table_keeps(d, bv, m, nf, col, solved),
            Some(r) => {
                let row = d[r as int];
                match accumulate(row, solved, nf, col + 1, m, zeros(nf), row[m as int]) {
                    None => {},
                    Some(ex) => match scale_expr(ex, row[col as int], nf) {
                        None => {},
                        Some(ex2) => lemma_param_table_keeps(d, bv, m, nf, col, solved.update(col as int, Some(ex2))),
                    },
                }
            },
        }
    }
}

/// The answer list grows by one `(name, text)` pair per pivot column, the text
/// written from the column's expression in the table.
proof fn lemma_param_texts(
    d: Seq<Seq<Rational>>,
    vars: Seq<Seq<char>>,
    bv: Seq<Option<nat>>,
    m: nat,
    nf: nat,
    pnames: Seq<Seq<char>>,
    c: nat,
    solved: Seq<Option<Expr>>,
    params: Seq<(Seq<char>, Seq<char>)>,
)
    requires
        c <= m,
        solved.len() == m,
    ensures
        param_loop(d, vars, bv, m, nf, pnames, c, solved, params) matches Some(ps) ==> {
            &&& ps.len() >= params.len()
            &&& forall|k: int| 0 <= k < params.len() ==> #[trigger] ps[k] == params[k]
            &&& forall|col: int|
                0 <= col < c && (#[trigger] bv[col]) is Some ==> ps.contains(
                    (vars[col], format_expr(param_table(d, bv, m, nf, c, solved)[col].unwrap(), pnames, nf).unwrap()),
                )
        },
    decreases c,
{
    if c > 0 {
        let col = (c - 1) as nat;
        match bv[col as int] {
            None => lemma_param_texts(d, vars, bv, m, nf, pnames, col, solved, params),
            Some(r) => {
                let row = d[r as int];
                match accumulate(row, solved, nf, col + 1, m, zeros(nf), row[m as int]) {
                    None => {},
                    Some(ex) => match scale_expr(ex, row[col as int], nf) {
                        None => {},
                        Some(ex2) => match format_expr(ex2, pnames, nf) {
                            None => {},
                            Some(text) => {
                                let s2 = solved.update(col as int, Some(ex2));
                                let p2 = params.push((vars[col as int], text));
                                lemma_param_texts(d, vars, bv, m, nf, pnames, col, s2, p2);
                                lemma_param_table_keeps(d, bv, m, nf, col, s2);
                                match param_loop(d, vars, bv, m, nf, pnames, col, s2, p2) {
                                    Some(ps) => {
                                        assert(ps[params.len() as int] == p2[params.len() as int]);
                                        assert(param_table(d, bv, m, nf, col, s2)[col as int] == Some(ex2));
                                        assert(ps.contains((vars[col as int], text)));
                                        assert forall|k: int| 0 <= k < params.len() implies #[trigger] ps[k] == params[k] by {
                                            assert(ps[k] == p2[k]);
                                        }
                                    },
                                    None => {},
                                }
                            },
                        },
                    },
                }
            },
        }
    }
}

/// A parametric answer names every column: each free column `free[i]` appears with
/// the name of parameter `i`, and every other column with the text of its expression
/// (see [`law_parametric_solution_solves`]).
pub proof fn law_parametric_texts(a: SpecMatrix)
    requires
        shaped(a),
    ensures
        gauss_spec(a) matches Some((steps, SpecSolution::Parametric(ps))) ==> {
            &&& forall|i: int|
                0 <= i < free_of(a).len() ==> ps.contains(
                    (a.vars[#[trigger] free_of(a)[i] as int], param_name(free_of(a).len(), i as nat)),
                )
            &&& forall|c: int|
                0 <= c < a.cols && (#[trigger] basic_columns(final_rows(a), a.rows, a.cols)[c]) is Some ==> ps.contains(
                    (a.vars[c], format_expr(param_exprs(a)[c].unwrap(), param_names(free_of(a).len()), free_of(a).len()).unwrap()),
                )
        },
{
    let n = a.rows;
    let m = a.cols;
    let s0 = seq![initial_step(a)];
    match elim_from(a.data, a.vars, n, m, 0, 0, s0) {
        Some((d, st)) => {
            match solution_spec(d, a.vars, n, m) {
                Some(SpecSolution::Parametric(ps)) => {
                    assert(final_rows(a) == d);
                    let bv = basic_columns(d, n, m);
                    let free = free_columns(bv, m);
                    let nf = free.len();
                    let pnames = param_names(nf);
                    let sd = seed(free, nf, m, nf);
                    lemma_pivot_all(d, n, m, 0, 0, Seq::new(m, |i: int| None::<nat>));
                    lemma_free_columns(bv, m);
                    lemma_seed_entries(free, nf, m, nf);
                    lemma_param_texts(d, a.vars, bv, m, nf, pnames, m, sd, Seq::empty());
                    let p = param_loop(d, a.vars, bv, m, nf, pnames, m, sd, Seq::empty()).unwrap();
                    let fe = free_entries(a.vars, free, pnames);
                    let all = p + fe;
                    assert(ps == all.reverse());
                    assert forall|x: (Seq<char>, Seq<char>)| all.contains(x) implies ps.contains(x) by {
                        let k = choose|k: int| 0 <= k < all.len() && all[k] == x;
                        assert(ps[all.len() - 1 - k] == x);
                    }
                    assert forall|i: int| 0 <= i < nf implies ps.contains((a.vars[#[trigger] free[i] as int], param_name(nf, i as nat))) by {
                        assert(all[p.len() + i] == fe[i]);
                        assert(all.contains(fe[i]));
                    }
                    assert forall|c: int| 0 <= c < m && (#[trigger] bv[c]) is Some implies ps.contains(
                        (a.vars[c], format_expr(param_exprs(a)[c].unwrap(), pnames, nf).unwrap()),
                    ) by {
                        let x = (a.vars[c], format_expr(param_exprs(a)[c].unwrap(), pnames, nf).unwrap());
                        assert(p.contains(x));
                        let k = choose|k: int| 0 <= k < p.len() && p[k] == x;
                        assert(all[k] == x);
                    }
                },
                _ => {},
            }
        },
        None => {},
    }
}

} // verus!
