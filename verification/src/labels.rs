use vstd::prelude::*;
use crate::echelon::{cleared_below, lemma_elim_below_clears, lemma_find_pivot_none, lemma_find_pivot_some};
use crate::frac::{fadd, feq, fmul, fr, fsub, fzero, lemma_feq_trans, lemma_fnz_ops, Frac};
use crate::gauss::{
    elim_below, elim_from, elim_ops, find_pivot, gauss_spec, initial_step, multiplier_text, snapshot,
    swap_label_spec, swap_ops, swap_rows, OpType, SpecStep,
};
use crate::matrix::{shaped, SpecMatrix};
use crate::rational::{lemma_make, spec_neg, Rational};
use crate::reading::{lemma_read_multiplier, lemma_read_swap_label, read_number, read_swap_label};
use crate::solution::rows_shaped;
use crate::soundness::{dens_nz, lemma_combine_value, lemma_elim_below_solutions, vec_nz};
use crate::gauss::combine_rows;
use vstd::arithmetic::mul::{lemma_mul_is_distributive_add_other_way, lemma_mul_is_distributive_sub_other_way};

verus! {

// ---------------------------------------------------------------------------
// The labels of a step name the multipliers it applied
// ---------------------------------------------------------------------------

/// The labels of step `st`, taken after the matrix `before`, say what it did: where
/// row `r` is marked as the target of an elimination (label `dst`) and row `q` as its
/// source (label `src`), both labels read back as numbers, and row `r` of the step's
/// matrix is `dst * (row r before) + src * (row q before)`, entry by entry; a row
/// marked unchanged is unchanged; two rows marked as swapped are exchanged, and the
/// label of the swap names them by their numbers (counted from 1).
pub open spec fn labels_match(before: Seq<Seq<Rational>>, st: SpecStep, n: nat, m: nat) -> bool {
    &&& forall|r: int, q: int|
        0 <= r < n && 0 <= q < n && (#[trigger] st.row_ops[r]).op_type == OpType::Eliminate
            && st.row_ops[r].dst is Some && (#[trigger] st.row_ops[q]).op_type == OpType::Eliminate
            && st.row_ops[q].src is Some ==> {
            &&& read_number(st.row_ops[r].dst->Some_0) is Some
            &&& read_number(st.row_ops[q].src->Some_0) is Some
            &&& forall|t: int|
                0 <= t <= m ==> feq(
                    fr(#[trigger] st.matrix.data[r][t]),
                    fadd(
                        fmul(read_number(st.row_ops[r].dst->Some_0)->Some_0, fr(before[r][t])),
                        fmul(read_number(st.row_ops[q].src->Some_0)->Some_0, fr(before[q][t])),
                    ),
                )
        }
    &&& forall|k: int|
        0 <= k < n && (#[trigger] st.row_ops[k]).op_type == OpType::NoChange ==> st.matrix.data[k] == before[k]
    &&& forall|a: int, b: int|
        0 <= a < b < n && (#[trigger] st.row_ops[a]).op_type == OpType::Swap && (#[trigger] st.row_ops[b]).op_type
            == OpType::Swap ==> {
            &&& st.matrix.data[a] == before[b]
            &&& st.matrix.data[b] == before[a]
            &&& st.row_ops[a].src is Some
            &&& read_swap_label(st.row_ops[a].src->Some_0) matches Some((x, y)) && ((x == a + 1 && y == b + 1) || (x
                == b + 1 && y == a + 1))
        }
}

/// Every step after the first is described by its labels, against the step before.
pub open spec fn labels_hold(s: Seq<SpecStep>, n: nat, m: nat) -> bool {
    forall|i: int| 1 <= i < s.len() ==> labels_match(s[i - 1].matrix.data, #[trigger] s[i], n, m)
}

/// `a - e*y` is `a + ne*y` where `ne` denotes `-e`.
proof fn lemma_sub_as_add(a: Frac, e: Frac, y: Frac, ne: Frac)
    requires
        ne.0 * e.1 == -e.0 * ne.1,
    ensures
        feq(fsub(a, fmul(e, y)), fadd(a, fmul(ne, y))),
{
    let (a0, a1) = a;
    let (e0, e1) = e;
    let (y0, y1) = y;
    let (n0, n1) = ne;
    let aa = a0 * (e1 * y1);
    let bb = (e0 * y0) * a1;
    let cc = a1 * (n1 * y1);
    let dd = a0 * (n1 * y1);
    let ee = (n0 * y0) * a1;
    let ff = a1 * (e1 * y1);
    lemma_mul_is_distributive_sub_other_way(cc, aa, bb);
    lemma_mul_is_distributive_add_other_way(ff, dd, ee);
    assert(aa * cc == dd * ff) by (nonlinear_arith)
        requires
            aa == a0 * (e1 * y1),
            cc == a1 * (n1 * y1),
            dd == a0 * (n1 * y1),
            ff == a1 * (e1 * y1),
    ;
    let k = y0 * a1 * a1 * y1;
    assert(bb * cc == (e0 * n1) * k) by (nonlinear_arith)
        requires
            bb == (e0 * y0) * a1,
            cc == a1 * (n1 * y1),
            k == y0 * a1 * a1 * y1,
    ;
    assert(ee * ff == (n0 * e1) * k) by (nonlinear_arith)
        requires
            ee == (n0 * y0) * a1,
            ff == a1 * (e1 * y1),
            k == y0 * a1 * a1 * y1,
    ;
    assert((n0 * e1) * k == -((e0 * n1) * k)) by (nonlinear_arith)
        requires
            n0 * e1 == -e0 * n1,
    ;
}

#[verifier::spinoff_prover]
proof fn lemma_elim_below_labels(
    d: Seq<Seq<Rational>>,
    vars: Seq<Seq<char>>,
    n: nat,
    m: nat,
    col: nat,
    p: nat,
    r: nat,
    steps: Seq<SpecStep>,
)
    requires
        rows_shaped(d, n, m),
        dens_nz(d, n, m),
        p < r,
        p < n,
        col < m,
        cleared_below(d, n, p, col),
        d[p as int][col as int].num != 0,
        steps.len() > 0,
        steps.last().matrix.data == d,
        labels_hold(steps, n, m),
    ensures
        elim_below(d, vars, n, m, col, p, d[p as int][col as int], r, steps) matches Some((d2, s2)) ==> labels_hold(
            s2,
            n,
            m,
        ),
    decreases n - r,
{
    let pv = d[p as int][col as int];
    if r >= n {
    } else if d[r as int][col as int].num == 0 {
        lemma_elim_below_labels(d, vars, n, m, col, p, r + 1, steps);
    } else {
        let e = d[r as int][col as int];
        lemma_combine_value(d[r as int], d[p as int], pv, e, col, m);
        match combine_rows(d[r as int], d[p as int], pv, e, col, m) {
            Some(nr) => {
                let d1 = d.update(r as int, nr);
                assert(rows_shaped(d1, n, m)) by {
                    assert forall|k: int| 0 <= k < n implies #[trigger] d1[k].len() == m + 1 by {
                        if k != r {
                            assert(d1[k] == d[k]);
                        }
                    }
                }
                assert(dens_nz(d1, n, m)) by {
                    assert forall|i: int, j: int| 0 <= i < n && 0 <= j <= m implies (#[trigger] d1[i][j]).den != 0 by {
                        if i != r {
                            assert(d1[i] == d[i]);
                        } else if j < col {
                            assert(nr[j] == d[r as int][j]);
                        }
                    }
                }
                assert(cleared_below(d1, n, p, col)) by {
                    assert forall|i: int, j: int| p <= i < n && 0 <= j < col implies (#[trigger] d1[i][j]).num == 0 by {
                        if i != r {
                            assert(d1[i] == d[i]);
                        } else {
                            assert(nr[j] == d[r as int][j]);
                        }
                    }
                }
                assert(d1[p as int] == d[p as int]);
                match multiplier_text(pv) {
                    Some(pvs) => match spec_neg(e) {
                        Some(ne) => match multiplier_text(ne) {
                            Some(srcs) => {
                                let st = SpecStep { matrix: snapshot(d1, vars, n, m), row_ops: elim_ops(n, p, r, srcs, pvs) };
                                let s1 = steps.push(st);
                                lemma_read_multiplier(pv);
                                lemma_read_multiplier(ne);
                                lemma_make(-e.num, e.den as int);
                                assert(fr(ne).0 * fr(e).1 == -fr(e).0 * fr(ne).1);
                                assert(labels_match(d, st, n, m)) by {
                                    assert forall|rr: int, q: int|
                                        0 <= rr < n && 0 <= q < n && (#[trigger] st.row_ops[rr]).op_type == OpType::Eliminate
                                            && st.row_ops[rr].dst is Some && (#[trigger] st.row_ops[q]).op_type
                                            == OpType::Eliminate && st.row_ops[q].src is Some implies {
                                        &&& read_number(st.row_ops[rr].dst->Some_0) is Some
                                        &&& read_number(st.row_ops[q].src->Some_0) is Some
                                        &&& forall|t: int|
                                            0 <= t <= m ==> feq(
                                                fr(#[trigger] st.matrix.data[rr][t]),
                                                fadd(
                                                    fmul(read_number(st.row_ops[rr].dst->Some_0)->Some_0, fr(d[rr][t])),
                                                    fmul(read_number(st.row_ops[q].src->Some_0)->Some_0, fr(d[q][t])),
                                                ),
                                            )
                                    } by {
                                        assert(rr == r);
                                        assert(q == p);
                                        assert forall|t: int| 0 <= t <= m implies feq(
                                            fr(#[trigger] st.matrix.data[rr][t]),
                                            fadd(fmul(fr(pv), fr(d[rr][t])), fmul(fr(ne), fr(d[q][t]))),
                                        ) by {
                                            let x = fr(d[r as int][t]);
                                            let y = fr(d[p as int][t]);
                                            assert(st.matrix.data[rr][t] == nr[t]);
                                            if t < col {
                                                assert(nr[t] == d[r as int][t]);
                                                assert(d[r as int][t].num == 0);
                                                assert(d[p as int][t].num == 0);
                                                let g = fadd(fmul(fr(pv), x), fmul(fr(ne), y));
                                                assert(g.0 == 0) by (nonlinear_arith)
                                                    requires
                                                        g.0 == (pv.num * x.0) * (ne.den * y.1) + (ne.num * y.0) * (pv.den * x.1),
                                                        x.0 == 0,
                                                        y.0 == 0,
                                                ;
                                                assert(fr(nr[t]).0 * g.1 == g.0 * fr(nr[t]).1) by (nonlinear_arith)
                                                    requires
                                                        fr(nr[t]).0 == 0,
                                                        g.0 == 0,
                                                ;
                                            } else {
                                                let a = fmul(fr(pv), x);
                                                lemma_sub_as_add(a, fr(e), y, fr(ne));
                                                assert(x.1 != 0 && y.1 != 0);
                                                lemma_fnz_ops(fr(pv), x);
                                                lemma_fnz_ops(fr(e), y);
                                                lemma_fnz_ops(a, fmul(fr(e), y));
                                                lemma_feq_trans(fr(nr[t]), fsub(a, fmul(fr(e), y)), fadd(a, fmul(fr(ne), y)));
                                            }
                                        }
                                    }
                                    assert forall|k: int| 0 <= k < n && (#[trigger] st.row_ops[k]).op_type == OpType::NoChange implies st.matrix.data[k] == d[k] by {
                                        assert(k != r);
                                    }
                                }
                                assert(labels_hold(s1, n, m)) by {
                                    assert forall|i: int| 1 <= i < s1.len() implies labels_match(s1[i - 1].matrix.data, #[trigger] s1[i], n, m) by {
                                        if i < steps.len() {
                                            assert(s1[i] == steps[i] && s1[i - 1] == steps[i - 1]);
                                        } else {
                                            assert(s1[i - 1] == steps.last());
                                        }
                                    }
                                }
                                assert(d1[p as int][col as int] == pv);
                                lemma_elim_below_labels(d1, vars, n, m, col, p, r + 1, s1);
                            },
                            None => {},
                        },
                        None => {},
                    },
                    None => {},
                }
            },
            None => {},
        }
    }
}

#[verifier::spinoff_prover]
proof fn lemma_elim_from_labels(
    d: Seq<Seq<Rational>>,
    vars: Seq<Seq<char>>,
    n: nat,
    m: nat,
    col: nat,
    p: nat,
    steps: Seq<SpecStep>,
)
    requires
        rows_shaped(d, n, m),
        dens_nz(d, n, m),
        col <= m,
        p <= n,
        cleared_below(d, n, p, col),
        steps.len() > 0,
        steps.last().matrix.data == d,
        labels_hold(steps, n, m),
    ensures
        elim_from(d, vars, n, m, col, p, steps) matches Some((d2, s2)) ==> labels_hold(s2, n, m),
    decreases m - col,
{
    if col >= m || p >= n {
    } else {
        match find_pivot(d, col, p, n) {
            None => {
                lemma_find_pivot_none(d, col, p, n);
                assert(cleared_below(d, n, p, col + 1)) by {
                    assert forall|r: int, j: int| p <= r < n && 0 <= j < col + 1 implies (#[trigger] d[r][j]).num == 0 by {
                        if j == col {
                            assert(d[r][col as int].num == 0);
                        }
                    }
                }
                lemma_elim_from_labels(d, vars, n, m, col + 1, p, steps);
            },
            Some(pr) => {
                lemma_find_pivot_some(d, col, p, n);
                let d1 = if pr != p {
                    swap_rows(d, pr, p)
                } else {
                    d
                };
                let st = SpecStep { matrix: snapshot(d1, vars, n, m), row_ops: swap_ops(n, p, pr, swap_label_spec(pr, p)) };
                let s1 = if pr != p {
                    steps.push(st)
                } else {
                    steps
                };
                assert forall|k: int| 0 <= k < n implies #[trigger] d1[k] == (if k == pr { d[p as int] } else if k == p { d[pr as int] } else { d[k] }) by {}
                assert(rows_shaped(d1, n, m)) by {
                    assert forall|k: int| 0 <= k < n implies #[trigger] d1[k].len() == m + 1 by {
                        assert(d1[k] == (if k == pr { d[p as int] } else if k == p { d[pr as int] } else { d[k] }));
                    }
                }
                assert(dens_nz(d1, n, m)) by {
                    assert forall|i: int, j: int| 0 <= i < n && 0 <= j <= m implies (#[trigger] d1[i][j]).den != 0 by {
                        assert(d1[i] == (if i == pr { d[p as int] } else if i == p { d[pr as int] } else { d[i] }));
                    }
                }
                assert(cleared_below(d1, n, p, col)) by {
                    assert forall|r: int, j: int| p <= r < n && 0 <= j < col implies (#[trigger] d1[r][j]).num == 0 by {
                        assert(d1[r] == (if r == pr { d[p as int] } else if r == p { d[pr as int] } else { d[r] }));
                        if r == p {
                            assert(d[pr as int][j].num == 0);
                        }
                    }
                }
                assert(labels_hold(s1, n, m)) by {
                    if pr != p {
                        assert(labels_match(d, st, n, m)) by {
                            assert forall|k: int| 0 <= k < n && (#[trigger] st.row_ops[k]).op_type == OpType::NoChange implies st.matrix.data[k] == d[k] by {
                                assert(k != p && k != pr);
                            }
                            lemma_read_swap_label(pr, p);
                            assert forall|a: int, b: int|
                                0 <= a < b < n && (#[trigger] st.row_ops[a]).op_type == OpType::Swap && (#[trigger] st.row_ops[b]).op_type
                                    == OpType::Swap implies {
                                &&& st.matrix.data[a] == d[b]
                                &&& st.matrix.data[b] == d[a]
                                &&& st.row_ops[a].src is Some
                                &&& read_swap_label(st.row_ops[a].src->Some_0) matches Some((x, y)) && ((x == a + 1 && y == b + 1) || (x
                                    == b + 1 && y == a + 1))
                            } by {
                                assert(a == p || a == pr);
                                assert(b == p || b == pr);
                            }
                        }
                        assert forall|i: int| 1 <= i < s1.len() implies labels_match(s1[i - 1].matrix.data, #[trigger] s1[i], n, m) by {
                            if i < steps.len() {
                                assert(s1[i] == steps[i] && s1[i - 1] == steps[i - 1]);
                            } else {
                                assert(s1[i - 1] == steps.last());
                            }
                        }
                    }
                }
                assert(s1.last().matrix.data == d1);
                let pv = d1[p as int][col as int];
                assert(pv.num != 0);
                lemma_elim_below_labels(d1, vars, n, m, col, p, p + 1, s1);
                lemma_elim_below_clears(d1, vars, n, m, col, p, p + 1, s1);
                let zs = Seq::new(m, |i: int| fzero());
                assert(vec_nz(zs, m));
                lemma_elim_below_solutions(d1, vars, n, m, col, p, p + 1, s1, zs);
                match elim_below(d1, vars, n, m, col, p, pv, p + 1, s1) {
                    Some((d2, s2)) => {
                        assert(cleared_below(d2, n, p + 1, col + 1)) by {
                            assert forall|r: int, j: int| p + 1 <= r < n && 0 <= j < col + 1 implies (#[trigger] d2[r][j]).num == 0 by {
                                if j < col {
                                    assert(d2[r][j] == d1[r][j]);
                                    assert(d1[r][j].num == 0);
                                } else {
                                    assert(d2[r][col as int].num == 0);
                                }
                            }
                        }
                        lemma_elim_from_labels(d2, vars, n, m, col + 1, p + 1, s2);
                    },
                    None => {},
                }
            },
        }
    }
}

/// The labels of every recorded elimination step name the multipliers it applied:
/// where a step marks row `r` as the target (label `dst`) and row `q` as the source
/// (label `src`), the two labels read back as numbers and row `r` of the step's
/// matrix is `dst * (row r before) + src * (row q before)`, entry by entry (the rows
/// before being those of the step before); every row a step marks unchanged is
/// unchanged.
pub proof fn law_elimination_labels(a: SpecMatrix)
    requires
        shaped(a),
        dens_nz(a.data, a.rows, a.cols),
    ensures
        gauss_spec(a) matches Some((steps, sol)) ==> forall|i: int|
            1 <= i < steps.len() ==> labels_match(steps[i - 1].matrix.data, #[trigger] steps[i], a.rows, a.cols),
{
    let s0 = seq![initial_step(a)];
    assert(s0.last().matrix.data == a.data);
    assert(rows_shaped(a.data, a.rows, a.cols));
    assert(labels_hold(s0, a.rows, a.cols));
    lemma_elim_from_labels(a.data, a.vars, a.rows, a.cols, 0, 0, s0);
}

} // verus!
