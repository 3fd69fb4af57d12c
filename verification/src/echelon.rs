use vstd::prelude::*;
use crate::gauss::{
    combine_rows, elim_below, elim_from, elim_ops, find_pivot, gauss_spec, initial_step,
    law_elimination_clears_entry, multiplier_text, snapshot, swap_label_spec, swap_ops, swap_rows,
    SpecStep,
};
use crate::matrix::{shaped, SpecMatrix};
use crate::rational::{spec_neg, Rational};
use crate::solution::{rows_shaped, Rows};

verus! {

// ---------------------------------------------------------------------------
// Row echelon form
// ---------------------------------------------------------------------------

/// The first column in `j..m` where the row has a non-zero coefficient, or `m`.
pub open spec fn lead_from(row: Seq<Rational>, j: nat, m: nat) -> nat
    decreases m - j,
{
    if j >= m {
        m
    } else if row[j as int].num != 0 {
        j
    } else {
        lead_from(row, j + 1, m)
    }
}

/// The column of the leading (first non-zero) coefficient of a row, or `m` where all
/// of its `m` coefficients are zero.
pub open spec fn lead(row: Seq<Rational>, m: nat) -> nat {
    lead_from(row, 0, m)
}

/// Row echelon form of the coefficient part: each row that has a non-zero coefficient
/// leads strictly to the right of every row above it; so rows of zero coefficients
/// come last.
pub open spec fn echelon(d: Rows, n: nat, m: nat) -> bool {
    forall|i: int, k: int|
        0 <= i < k < n && #[trigger] lead(d[k], m) < m ==> #[trigger] lead(d[i], m) < lead(d[k], m)
}

/// The leading column is `c` when the coefficients before `c` are zero and the one at
/// `c` is not (or `c == m`).
pub(crate) proof fn lemma_lead_is(row: Seq<Rational>, m: nat, c: nat, j: nat)
    requires
        j <= c <= m,
        forall|k: int| j <= k < c ==> (#[trigger] row[k]).num == 0,
        c < m ==> row[c as int].num != 0,
    ensures
        lead_from(row, j, m) == c,
    decreases c - j,
{
    if j < c {
        lemma_lead_is(row, m, c, j + 1);
    }
}

/// The leading column is at least `c` when the coefficients before `c` are zero.
pub(crate) proof fn lemma_lead_at_least(row: Seq<Rational>, m: nat, c: nat, j: nat)
    requires
        j <= c <= m,
        forall|k: int| j <= k < c ==> (#[trigger] row[k]).num == 0,
    ensures
        c <= lead_from(row, j, m) <= m,
    decreases m - j,
{
    if j < m && row[j as int].num == 0 {
        if j < c {
            lemma_lead_at_least(row, m, c, j + 1);
        } else {
            lemma_lead_at_least(row, m, j + 1, j + 1);
        }
    }
}

// ---------------------------------------------------------------------------
// The invariant of forward elimination
// ---------------------------------------------------------------------------

/// Rows `p..n` are zero in the columns before `col`.
pub open spec fn cleared_below(d: Rows, n: nat, p: nat, col: nat) -> bool {
    forall|r: int, j: int| p <= r < n && 0 <= j < col ==> (#[trigger] d[r][j]).num == 0
}

/// Rows `0..p` lead before column `col`, each strictly right of the row above.
pub open spec fn finished_above(d: Rows, m: nat, p: nat, col: nat) -> bool {
    &&& forall|i: int| 0 <= i < p ==> #[trigger] lead(d[i], m) < col
    &&& forall|i: int, k: int| 0 <= i < k < p ==> #[trigger] lead(d[i], m) < #[trigger] lead(d[k], m)
}

pub(crate) proof fn lemma_find_pivot_none(d: Rows, col: nat, r: nat, n: nat)
    requires
        find_pivot(d, col, r, n) is None,
    ensures
        forall|k: int| r <= k < n ==> (#[trigger] d[k][col as int]).num == 0,
    decreases n - r,
{
    if r < n {
        lemma_find_pivot_none(d, col, r + 1, n);
    }
}

pub(crate) proof fn lemma_find_pivot_some(d: Rows, col: nat, r: nat, n: nat)
    ensures
        find_pivot(d, col, r, n) matches Some(x) ==> r <= x < n && d[x as int][col as int].num != 0,
    decreases n - r,
{
    if r < n && d[r as int][col as int].num == 0 {
        lemma_find_pivot_some(d, col, r + 1, n);
    }
}

/// Eliminating below the pivot row `p` clears column `col` of the rows `r..n`, keeps
/// their entries left of `col`, and keeps the rows before `r`; each recorded step
/// shows the matrix as it stands after it.
pub(crate) proof fn lemma_elim_below_clears(
    d: Rows,
    vars: Seq<Seq<char>>,
    n: nat,
    m: nat,
    col: nat,
    p: nat,
    r: nat,
    steps: Seq<SpecStep>,
)
    requires
        rows_shaped(d, n, m),
        p < r,
        p < n,
        col < m,
        steps.len() > 0,
        steps.last().matrix.data == d,
    ensures
        elim_below(d, vars, n, m, col, p, d[p as int][col as int], r, steps) matches Some((d2, s2)) ==> {
            &&& rows_shaped(d2, n, m)
            &&& s2.len() > 0
            &&& s2.last().matrix.data == d2
            &&& forall|k: int| 0 <= k < r ==> #[trigger] d2[k] == d[k]
            &&& forall|k: int| r <= k < n ==> (#[trigger] d2[k][col as int]).num == 0
            &&& forall|k: int, j: int| r <= k < n && 0 <= j < col ==> #[trigger] d2[k][j] == d[k][j]
        },
    decreases n - r,
{
    let pv = d[p as int][col as int];
    if r >= n {
    } else if d[r as int][col as int].num == 0 {
        lemma_elim_below_clears(d, vars, n, m, col, p, r + 1, steps);
        match elim_below(d, vars, n, m, col, p, pv, r + 1, steps) {
            Some((d2, s2)) => {
                assert(d2[r as int] == d[r as int]);
            },
            None => {},
        }
    } else {
        let e = d[r as int][col as int];
        law_elimination_clears_entry(d[r as int], d[p as int], col, m);
        match combine_rows(d[r as int], d[p as int], pv, e, col, m) {
            Some(nr) => {
                let d1 = d.update(r as int, nr);
                assert(rows_shaped(d1, n, m)) by {
                    assert forall|k: int| 0 <= k < n implies #[trigger] d1[k].len() == m + 1 by {
                        if k != r {
                            assert(d1[k] == d[k]);
                        }
                    }
                }
                assert(d1[p as int] == d[p as int]);
                match multiplier_text(pv) {
                    Some(pvs) => match spec_neg(e) {
                        Some(ne) => match multiplier_text(ne) {
                            Some(srcs) => {
                                let st = SpecStep { matrix: snapshot(d1, vars, n, m), row_ops: elim_ops(n, p, r, srcs, pvs) };
                                let s1 = steps.push(st);
                                lemma_elim_below_clears(d1, vars, n, m, col, p, r + 1, s1);
                                match elim_below(d1, vars, n, m, col, p, pv, r + 1, s1) {
                                    Some((d2, s2)) => {
                                        assert(d2[r as int] == d1[r as int]);
                                        assert forall|k: int| 0 <= k < r implies #[trigger] d2[k] == d[k] by {
                                            assert(d2[k] == d1[k]);
                                        }
                                        assert forall|k: int, j: int| r <= k < n && 0 <= j < col implies #[trigger] d2[k][j] == d[k][j] by {
                                            if k == r {
                                                assert(d2[k] == nr);
                                            } else {
                                                assert(d1[k] == d[k]);
                                            }
                                        }
                                    },
                                    None => {},
                                }
                            },
                            None => {},
                        },
                        None => {},
                    },
                    None => {},
                }
            },
            None => {},
        }
    }
}

/// Forward elimination from column `col` with pivot row `p` keeps the invariant and
/// ends in row echelon form; the last recorded step shows the final matrix.
pub(crate) proof fn lemma_elim_from_echelon(d: Rows, vars: Seq<Seq<char>>, n: nat, m: nat, col: nat, p: nat, steps: Seq<SpecStep>)
    requires
        rows_shaped(d, n, m),
        col <= m,
        p <= n,
        cleared_below(d, n, p, col),
        finished_above(d, m, p, col),
        steps.len() > 0,
        steps.last().matrix.data == d,
    ensures
        elim_from(d, vars, n, m, col, p, steps) matches Some((d2, s2)) ==> {
            &&& echelon(d2, n, m)
            &&& s2.len() > 0
            &&& s2.last().matrix.data == d2
        },
    decreases m - col,
{
    if col >= m || p >= n {
        assert forall|i: int, k: int| 0 <= i < k < n && #[trigger] lead(d[k], m) < m implies #[trigger] lead(d[i], m) < lead(d[k], m) by {
            if k >= p {
                // a row below the pivots has only zero coefficients
                assert(col == m);
                assert forall|j: int| 0 <= j < m implies (#[trigger] d[k][j]).num == 0 by {
                    assert(d[k][j].num == 0);
                }
                lemma_lead_at_least(d[k], m, m, 0);
            }
        }
    } else {
        match find_pivot(d, col, p, n) {
            None => {
                lemma_find_pivot_none(d, col, p, n);
                assert(cleared_below(d, n, p, col + 1)) by {
                    assert forall|r: int, j: int| p <= r < n && 0 <= j < col + 1 implies (#[trigger] d[r][j]).num == 0 by {
                        if j == col {
                            assert(d[r][col as int].num == 0);
                        }
                    }
                }
                lemma_elim_from_echelon(d, vars, n, m, col + 1, p, steps);
            },
            Some(pr) => {
                lemma_find_pivot_some(d, col, p, n);
                let d1 = if pr != p {
                    swap_rows(d, pr, p)
                } else {
                    d
                };
                let s1 = if pr != p {
                    steps.push(
                        SpecStep {
                            matrix: snapshot(d1, vars, n, m),
                            row_ops: swap_ops(n, p, pr, swap_label_spec(pr, p)),
                        },
                    )
                } else {
                    steps
                };
                assert(rows_shaped(d1, n, m)) by {
                    assert forall|k: int| 0 <= k < n implies #[trigger] d1[k].len() == m + 1 by {
                        if pr != p {
                            if k == pr {
                                assert(d1[k] == d[p as int]);
                            } else if k == p {
                                assert(d1[k] == d[pr as int]);
                            } else {
                                assert(d1[k] == d[k]);
                            }
                        }
                    }
                }
                // rows below the pivot row are only permuted among themselves
                assert(cleared_below(d1, n, p, col)) by {
                    assert forall|r: int, j: int| p <= r < n && 0 <= j < col implies (#[trigger] d1[r][j]).num == 0 by {
                        if pr != p {
                            if r == pr {
                                assert(d1[r] == d[p as int]);
                            } else if r == p {
                                assert(d1[r] == d[pr as int]);
                                assert(d[pr as int][j].num == 0);
                            } else {
                                assert(d1[r] == d[r]);
                            }
                        }
                    }
                }
                assert forall|i: int| 0 <= i < p implies #[trigger] d1[i] == d[i] by {}
                let pv = d1[p as int][col as int];
                assert(pv.num != 0);
                lemma_elim_below_clears(d1, vars, n, m, col, p, p + 1, s1);
                match elim_below(d1, vars, n, m, col, p, pv, p + 1, s1) {
                    Some((d2, s2)) => {
                        // the pivot row now leads at `col`
                        assert(d2[p as int] == d1[p as int]);
                        assert forall|j: int| 0 <= j < col implies (#[trigger] d2[p as int][j]).num == 0 by {
                            assert(d1[p as int][j].num == 0);
                        }
                        lemma_lead_is(d2[p as int], m, col, 0);
                        assert(cleared_below(d2, n, p + 1, col + 1)) by {
                            assert forall|r: int, j: int| p + 1 <= r < n && 0 <= j < col + 1 implies (#[trigger] d2[r][j]).num == 0 by {
                                if j < col {
                                    assert(d2[r][j] == d1[r][j]);
                                    assert(d1[r][j].num == 0);
                                } else {
                                    assert(d2[r][col as int].num == 0);
                                }
                            }
                        }
                        assert(finished_above(d2, m, p + 1, col + 1)) by {
                            assert forall|i: int| 0 <= i < p + 1 implies #[trigger] lead(d2[i], m) < col + 1 by {
                                if i < p {
                                    assert(d2[i] == d1[i]);
                                    assert(d1[i] == d[i]);
                                }
                            }
                            assert forall|i: int, k: int| 0 <= i < k < p + 1 implies #[trigger] lead(d2[i], m) < #[trigger] lead(d2[k], m) by {
                                assert(d2[i] == d[i]);
                                if k < p {
                                    assert(d2[k] == d[k]);
                                } else {
                                    assert(lead(d[i], m) < col);
                                }
                            }
                        }
                        lemma_elim_from_echelon(d2, vars, n, m, col + 1, p + 1, s2);
                    },
                    None => {},
                }
            },
        }
    }
}

// ---------------------------------------------------------------------------
// The law
// ---------------------------------------------------------------------------

/// Forward elimination leaves the matrix in row echelon form: in the matrix of the
/// last recorded step, each row with a non-zero coefficient leads strictly to the
/// right of every row above it, and rows whose coefficients are all zero come last.
pub proof fn law_elimination_reaches_echelon_form(a: SpecMatrix)
    requires
        shaped(a),
    ensures
        gauss_spec(a) matches Some((steps, sol)) ==> {
            &&& steps.len() > 0
            &&& echelon(steps.last().matrix.data, a.rows, a.cols)
        },
{
    let s0 = seq![initial_step(a)];
    assert(s0.last().matrix.data == a.data);
    assert(rows_shaped(a.data, a.rows, a.cols));
    lemma_elim_from_echelon(a.data, a.vars, a.rows, a.cols, 0, 0, s0);
}

} // verus!
