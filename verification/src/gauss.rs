use vstd::prelude::*;
use crate::matrix::{data_view, names_view, shaped, AugmentedMatrix, SpecMatrix};
use crate::rational::{
    display_spec, displayable, lemma_make, make, spec_mul, spec_neg, spec_sub, zero_spec, Rational,
};
use crate::solution::{compute_solution, rows_shaped, solution_spec, Solution, SpecSolution};
use crate::text::{dec_int, dec_nat, push_str, u128_to_string};

verus! {

/// What a step did to a row.
#[derive(Clone, Copy, Debug, PartialEq, Eq, Structural)]
pub enum OpType {
    NoChange,
    Eliminate,
    Swap,
}

/// The annotation of one row in one step: what happened to it, and the labels drawn
/// at the source and the target of the arrow.
#[derive(Debug)]
pub struct RowOp {
    pub op_type: OpType,
    pub arrow_src: Option<String>,
    pub arrow_dst: Option<String>,
}

pub struct SpecRowOp {
    pub op_type: OpType,
    pub src: Option<Seq<char>>,
    pub dst: Option<Seq<char>>,
}

pub open spec fn opt_text(o: Option<String>) -> Option<Seq<char>> {
    match o {
        Some(s) => Some(s@),
        None => None,
    }
}

impl View for RowOp {
    type V = SpecRowOp;

    open spec fn view(&self) -> SpecRowOp {
        SpecRowOp { op_type: self.op_type, src: opt_text(self.arrow_src), dst: opt_text(self.arrow_dst) }
    }
}

/// The matrix after one step, with the annotation of each row.
#[derive(Debug)]
pub struct EliminationStep {
    pub matrix: AugmentedMatrix,
    pub row_ops: Vec<RowOp>,
}

pub struct SpecStep {
    pub matrix: SpecMatrix,
    pub row_ops: Seq<SpecRowOp>,
}

pub open spec fn ops_view(v: Seq<RowOp>) -> Seq<SpecRowOp> {
    v.map_values(|o: RowOp| o@)
}

impl View for EliminationStep {
    type V = SpecStep;

    open spec fn view(&self) -> SpecStep {
        SpecStep { matrix: self.matrix@, row_ops: ops_view(self.row_ops@) }
    }
}

pub open spec fn steps_view(v: Seq<EliminationStep>) -> Seq<SpecStep> {
    v.map_values(|s: EliminationStep| s@)
}

// ---------------------------------------------------------------------------
// The elimination, as a function of the matrix
// ---------------------------------------------------------------------------

pub open spec fn no_change() -> SpecRowOp {
    SpecRowOp { op_type: OpType::NoChange, src: None, dst: None }
}

pub open spec fn snapshot(d: Seq<Seq<Rational>>, vars: Seq<Seq<char>>, n: nat, m: nat) -> SpecMatrix {
    SpecMatrix { data: d, vars: vars, rows: n, cols: m }
}

/// "R{a+1} ↔ R{b+1}".
pub open spec fn swap_label_spec(a: nat, b: nat) -> Seq<char> {
    "R"@ + dec_nat(a + 1) + " ↔ R"@ + dec_nat(b + 1)
}

pub open spec fn swap_ops(n: nat, a: nat, b: nat, label: Seq<char>) -> Seq<SpecRowOp> {
    Seq::new(
        n,
        |i: int|
            if i == a || i == b {
                SpecRowOp { op_type: OpType::Swap, src: Some(label), dst: Some(label) }
            } else {
                no_change()
            },
    )
}

pub open spec fn elim_ops(n: nat, p: nat, r: nat, src: Seq<char>, dst: Seq<char>) -> Seq<SpecRowOp> {
    Seq::new(
        n,
        |i: int|
            if i == p {
                SpecRowOp { op_type: OpType::Eliminate, src: Some(src), dst: None }
            } else if i == r {
                SpecRowOp { op_type: OpType::Eliminate, src: None, dst: Some(dst) }
            } else {
                no_change()
            },
    )
}

/// The label of a multiplier: the integer when the denominator is 1, otherwise the
/// fraction; `None` where writing it overflows.
pub open spec fn multiplier_text(v: Rational) -> Option<Seq<char>> {
    if v.den == 1 {
        Some(dec_int(v.num as int))
    } else if displayable(v) {
        Some(display_spec(v))
    } else {
        None
    }
}

/// The first row from `r` on (below `n`) with a non-zero entry in column `col`.
pub open spec fn find_pivot(d: Seq<Seq<Rational>>, col: nat, r: nat, n: nat) -> Option<nat>
    decreases n - r,
{
    if r >= n {
        None
    } else if d[r as int][col as int].num != 0 {
        Some(r)
    } else {
        find_pivot(d, col, r + 1, n)
    }
}

pub open spec fn swap_rows(d: Seq<Seq<Rational>>, a: nat, b: nat) -> Seq<Seq<Rational>> {
    d.update(a as int, d[b as int]).update(b as int, d[a as int])
}

/// `rr[j] := pv * rr[j] - e * rp[j]` for the columns `j..=m`.
pub open spec fn combine_rows(rr: Seq<Rational>, rp: Seq<Rational>, pv: Rational, e: Rational, j: nat, m: nat) -> Option<
    Seq<Rational>,
>
    decreases m + 1 - j,
{
    if j > m {
        Some(rr)
    } else {
        match spec_mul(pv, rr[j as int]) {
            None => None,
            Some(a) => match spec_mul(e, rp[j as int]) {
                None => None,
                Some(b) => match spec_sub(a, b) {
                    None => None,
                    Some(v) => combine_rows(rr.update(j as int, v), rp, pv, e, j + 1, m),
                },
            },
        }
    }
}

/// Eliminates column `col` from the rows `r..n` below the pivot row `p`, recording a
/// step for each row that changes.
pub open spec fn elim_below(
    d: Seq<Seq<Rational>>,
    vars: Seq<Seq<char>>,
    n: nat,
    m: nat,
    col: nat,
    p: nat,
    pv: Rational,
    r: nat,
    steps: Seq<SpecStep>,
) -> Option<(Seq<Seq<Rational>>, Seq<SpecStep>)>
    decreases n - r,
{
    if r >= n {
        Some((d, steps))
    } else if d[r as int][col as int].num == 0 {
        elim_below(d, vars, n, m, col, p, pv, r + 1, steps)
    } else {
        let e = d[r as int][col as int];
        match combine_rows(d[r as int], d[p as int], pv, e, col, m) {
            None => None,
            Some(nr) => {
                let d2 = d.update(r as int, nr);
                match multiplier_text(pv) {
                    None => None,
                    Some(pvs) => match spec_neg(e) {
                        None => None,
                        Some(ne) => match multiplier_text(ne) {
                            None => None,
                            Some(srcs) => elim_below(
                                d2,
                                vars,
                                n,
                                m,
                                col,
                                p,
                                pv,
                                r + 1,
                                steps.push(
                                    SpecStep {
                                        matrix: snapshot(d2, vars, n, m),
                                        row_ops: elim_ops(n, p, r, srcs, pvs),
                                    },
                                ),
                            ),
                        },
                    },
                }
            },
        }
    }
}

/// Forward elimination from column `col` on, with pivot row `p`.
pub open spec fn elim_from(
    d: Seq<Seq<Rational>>,
    vars: Seq<Seq<char>>,
    n: nat,
    m: nat,
    col: nat,
    p: nat,
    steps: Seq<SpecStep>,
) -> Option<(Seq<Seq<Rational>>, Seq<SpecStep>)>
    decreases m - col,
{
    if col >= m || p >= n {
        Some((d, steps))
    } else {
        match find_pivot(d, col, p, n) {
            None => elim_from(d, vars, n, m, col + 1, p, steps),
            Some(pr) => {
                let d1 = if pr != p {
                    swap_rows(d, pr, p)
                } else {
                    d
                };
                let s1 = if pr != p {
                    steps.push(
                        SpecStep {
                            matrix: snapshot(d1, vars, n, m),
                            row_ops: swap_ops(n, p, pr, swap_label_spec(pr, p)),
                        },
                    )
                } else {
                    steps
                };
                match elim_below(d1, vars, n, m, col, p, d1[p as int][col as int], p + 1, s1) {
                    None => None,
                    Some((d2, s2)) => elim_from(d2, vars, n, m, col + 1, p + 1, s2),
                }
            },
        }
    }
}

/// The first step: the matrix as given, no row changed.
pub open spec fn initial_step(a: SpecMatrix) -> SpecStep {
    SpecStep { matrix: a, row_ops: Seq::new(a.rows, |i: int| no_change()) }
}

/// The steps of Gaussian elimination on `a` and the solution read off the final
/// matrix; `None` where the arithmetic overflows `i128`.
pub open spec fn gauss_spec(a: SpecMatrix) -> Option<(Seq<SpecStep>, SpecSolution)> {
    match elim_from(a.data, a.vars, a.rows, a.cols, 0, 0, seq![initial_step(a)]) {
        None => None,
        Some((d, steps)) => match solution_spec(d, a.vars, a.rows, a.cols) {
            None => None,
            Some(sol) => Some((steps, sol)),
        },
    }
}

// ---------------------------------------------------------------------------
// Executable elimination
// ---------------------------------------------------------------------------

/// "R{a+1} ↔ R{b+1}", the label of a row swap.
pub fn swap_label(a: usize, b: usize) -> (s: String)
    requires
        a < usize::MAX,
        b < usize::MAX,
    ensures
        s@ == swap_label_spec(a as nat, b as nat),
{
    let mut s = String::from_str("R");
    let x = u128_to_string((a + 1) as u128);
    push_str(&mut s, x.as_str());
    push_str(&mut s, " ↔ R");
    let y = u128_to_string((b + 1) as u128);
    push_str(&mut s, y.as_str());
    s
}

/// The label of a multiplier (see [`multiplier_text`]).
pub fn format_multiplier(val: &Rational) -> (s: String)
    requires
        multiplier_text(*val) is Some,
    ensures
        multiplier_text(*val) == Some(s@),
{
    if val.is_integer() {
        crate::text::i128_to_string(val.num)
    } else {
        val.to_display_string()
    }
}

/// A copy of a row.
pub fn copy_row(row: &Vec<Rational>) -> (r: Vec<Rational>)
    ensures
        r@ == row@,
{
    let mut r: Vec<Rational> = Vec::new();
    let mut i: usize = 0;
    while i < row.len()
        invariant
            i <= row.len(),
            r@ == row@.subrange(0, i as int),
        decreases row.len() - i,
    {
        r.push(row[i]);
        i = i + 1;
        assert(r@ =~= row@.subrange(0, i as int));
    }
    assert(row@.subrange(0, row.len() as int) =~= row@);
    r
}

/// A copy of the rows of a matrix.
pub fn copy_data(d: &Vec<Vec<Rational>>) -> (r: Vec<Vec<Rational>>)
    ensures
        data_view(r@) == data_view(d@),
{
    let mut r: Vec<Vec<Rational>> = Vec::new();
    let mut i: usize = 0;
    while i < d.len()
        invariant
            i <= d.len(),
            data_view(r@) == data_view(d@).subrange(0, i as int),
        decreases d.len() - i,
    {
        let row = copy_row(&d[i]);
        let ghost before = data_view(r@);
        let ghost rv = row@;
        r.push(row);
        assert(data_view(r@) =~= before.push(rv));
        i = i + 1;
        assert(data_view(r@) =~= data_view(d@).subrange(0, i as int));
    }
    assert(data_view(d@).subrange(0, d.len() as int) =~= data_view(d@));
    r
}

/// A copy of a list of names.
pub fn copy_names(v: &Vec<String>) -> (r: Vec<String>)
    ensures
        names_view(r@) == names_view(v@),
{
    let mut r: Vec<String> = Vec::new();
    let mut i: usize = 0;
    while i < v.len()
        invariant
            i <= v.len(),
            names_view(r@) == names_view(v@).subrange(0, i as int),
        decreases v.len() - i,
    {
        let s = v[i].clone();
        let ghost before = names_view(r@);
        let ghost sv = s@;
        r.push(s);
        assert(names_view(r@) =~= before.push(sv));
        i = i + 1;
        assert(names_view(r@) =~= names_view(v@).subrange(0, i as int));
    }
    assert(names_view(v@).subrange(0, v.len() as int) =~= names_view(v@));
    r
}

fn snapshot_step(d: &Vec<Vec<Rational>>, vars: &Vec<String>, n: usize, m: usize, ops: Vec<RowOp>) -> (s: EliminationStep)
    ensures
        s@ == (SpecStep {
            matrix: snapshot(data_view(d@), names_view(vars@), n as nat, m as nat),
            row_ops: ops_view(ops@),
        }),
{
    EliminationStep {
        matrix: AugmentedMatrix { data: copy_data(d), vars: copy_names(vars), rows: n, cols: m },
        row_ops: ops,
    }
}

fn no_change_op() -> (o: RowOp)
    ensures
        o@ == no_change(),
{
    RowOp { op_type: OpType::NoChange, arrow_src: None, arrow_dst: None }
}

fn initial_ops(n: usize) -> (v: Vec<RowOp>)
    ensures
        ops_view(v@) == Seq::new(n as nat, |i: int| no_change()),
{
    let mut v: Vec<RowOp> = Vec::new();
    let mut i: usize = 0;
    while i < n
        invariant
            i <= n,
            ops_view(v@) == Seq::new(i as nat, |k: int| no_change()),
        decreases n - i,
    {
        let ghost before = ops_view(v@);
        v.push(no_change_op());
        assert(ops_view(v@) =~= before.push(no_change()));
        i = i + 1;
        assert(ops_view(v@) =~= Seq::new(i as nat, |k: int| no_change()));
    }
    v
}

fn swap_row_ops(n: usize, a: usize, b: usize, label: &String) -> (v: Vec<RowOp>)
    ensures
        ops_view(v@) == swap_ops(n as nat, a as nat, b as nat, label@),
{
    let mut v: Vec<RowOp> = Vec::new();
    let mut i: usize = 0;
    while i < n
        invariant
            i <= n,
            ops_view(v@) == swap_ops(n as nat, a as nat, b as nat, label@).subrange(0, i as int),
        decreases n - i,
    {
        let ghost before = ops_view(v@);
        if i == a || i == b {
            v.push(
                RowOp {
                    op_type: OpType::Swap,
                    arrow_src: Some(label.clone()),
                    arrow_dst: Some(label.clone()),
                },
            );
        } else {
            v.push(no_change_op());
        }
        assert(ops_view(v@) =~= before.push(swap_ops(n as nat, a as nat, b as nat, label@)[i as int]));
        i = i + 1;
        assert(ops_view(v@) =~= swap_ops(n as nat, a as nat, b as nat, label@).subrange(0, i as int));
    }
    assert(swap_ops(n as nat, a as nat, b as nat, label@).subrange(0, n as int) =~= swap_ops(
        n as nat,
        a as nat,
        b as nat,
        label@,
    ));
    v
}

fn elim_row_ops(n: usize, p: usize, r: usize, src: &String, dst: &String) -> (v: Vec<RowOp>)
    ensures
        ops_view(v@) == elim_ops(n as nat, p as nat, r as nat, src@, dst@),
{
    let mut v: Vec<RowOp> = Vec::new();
    let mut i: usize = 0;
    while i < n
        invariant
            i <= n,
            ops_view(v@) == elim_ops(n as nat, p as nat, r as nat, src@, dst@).subrange(0, i as int),
        decreases n - i,
    {
        let ghost before = ops_view(v@);
        if i == p {
            v.push(RowOp { op_type: OpType::Eliminate, arrow_src: Some(src.clone()), arrow_dst: None });
        } else if i == r {
            v.push(RowOp { op_type: OpType::Eliminate, arrow_src: None, arrow_dst: Some(dst.clone()) });
        } else {
            v.push(no_change_op());
        }
        assert(ops_view(v@) =~= before.push(elim_ops(n as nat, p as nat, r as nat, src@, dst@)[i as int]));
        i = i + 1;
        assert(ops_view(v@) =~= elim_ops(n as nat, p as nat, r as nat, src@, dst@).subrange(0, i as int));
    }
    assert(elim_ops(n as nat, p as nat, r as nat, src@, dst@).subrange(0, n as int) =~= elim_ops(
        n as nat,
        p as nat,
        r as nat,
        src@,
        dst@,
    ));
    v
}

/// `row[j] := pv * row[j] - e * prow[j]` for `j` in `col..=m`.
fn combine_into(row: &mut Vec<Rational>, prow: &Vec<Rational>, pv: Rational, e: Rational, col: usize, m: usize) -> (ok: bool)
    requires
        old(row).len() == m + 1,
        prow.len() == m + 1,
        col <= m,
        m < usize::MAX,
    ensures
        ok <==> combine_rows(old(row)@, prow@, pv, e, col as nat, m as nat) is Some,
        ok ==> combine_rows(old(row)@, prow@, pv, e, col as nat, m as nat) == Some(final(row)@),
{
    let ghost orig = row@;
    let mut j = col;
    while j <= m
        invariant
            col <= j <= m + 1,
            m < usize::MAX,
            row.len() == m + 1,
            prow.len() == m + 1,
            orig == old(row)@,
            combine_rows(orig, prow@, pv, e, col as nat, m as nat) == combine_rows(
                row@,
                prow@,
                pv,
                e,
                j as nat,
                m as nat,
            ),
        decreases m + 1 - j,
    {
        let a = match pv.checked_mul(row[j]) {
            Some(a) => a,
            None => {
                assert(combine_rows(row@, prow@, pv, e, j as nat, m as nat) is None);
                return false;
            },
        };
        let b = match e.checked_mul(prow[j]) {
            Some(b) => b,
            None => {
                assert(combine_rows(row@, prow@, pv, e, j as nat, m as nat) is None);
                return false;
            },
        };
        let v = match a.checked_sub(b) {
            Some(v) => v,
            None => {
                assert(combine_rows(row@, prow@, pv, e, j as nat, m as nat) is None);
                return false;
            },
        };
        row.set(j, v);
        j = j + 1;
    }
    true
}

/// The first row from `from` on with a non-zero entry in column `col`.
fn find_pivot_row(data: &Vec<Vec<Rational>>, col: usize, from: usize, n: usize, m: usize) -> (r: Option<usize>)
    requires
        rows_shaped(data_view(data@), n as nat, m as nat),
        col < m,
        from <= n,
    ensures
        opt_nat(r) == find_pivot(data_view(data@), col as nat, from as nat, n as nat),
        r matches Some(x) ==> from <= x < n,
{
    let ghost d = data_view(data@);
    let mut r = from;
    while r < n
        invariant
            from <= r <= n,
            col < m,
            d == data_view(data@),
            rows_shaped(d, n as nat, m as nat),
            find_pivot(d, col as nat, from as nat, n as nat) == find_pivot(d, col as nat, r as nat, n as nat),
        decreases n - r,
    {
        assert(d[r as int] == data@[r as int]@);
        if !data[r][col].is_zero() {
            return Some(r);
        }
        r = r + 1;
    }
    None
}

pub open spec fn opt_nat(o: Option<usize>) -> Option<nat> {
    match o {
        Some(x) => Some(x as nat),
        None => None,
    }
}

/// Runs Gaussian elimination on the matrix and reads off the solution; `None` where
/// the arithmetic overflows `i128`.
pub fn try_gaussian_elimination(matrix: &AugmentedMatrix) -> (r: Option<(Vec<EliminationStep>, Solution)>)
    requires
        shaped(matrix@),
        matrix.cols < usize::MAX,
    ensures
        match gauss_spec(matrix@) {
            None => r is None,
            Some((steps, sol)) => r matches Some(x) && steps_view(x.0@) == steps && x.1@ == sol,
        },
{
    let n = matrix.rows;
    let m = matrix.cols;
    let mut data = copy_data(&matrix.data);
    let vars = copy_names(&matrix.vars);
    let ghost a = matrix@;
    let ghost vv = a.vars;
    let mut steps: Vec<EliminationStep> = Vec::new();
    let first = snapshot_step(&data, &vars, n, m, initial_ops(n));
    steps.push(first);
    proof {
        assert(data_view(data@) == a.data);
        assert(steps_view(steps@) =~= seq![initial_step(a)]);
    }
    let mut pivot_row: usize = 0;
    let mut col: usize = 0;
    while col < m && pivot_row < n
        invariant
            a == matrix@,
            n == a.rows,
            m == a.cols,
            m < usize::MAX,
            names_view(vars@) == vv,
            vv == a.vars,
            vars.len() == m,
            rows_shaped(data_view(data@), n as nat, m as nat),
            pivot_row <= n,
            col <= m,
            elim_from(a.data, vv, n as nat, m as nat, 0, 0, seq![initial_step(a)]) == elim_from(
                data_view(data@),
                vv,
                n as nat,
                m as nat,
                col as nat,
                pivot_row as nat,
                steps_view(steps@),
            ),
        decreases m - col,
    {
        let ghost d0 = data_view(data@);
        let ghost s0 = steps_view(steps@);
        let pc = match find_pivot_row(&data, col, pivot_row, n, m) {
            Some(pc) => pc,
            None => {
                col = col + 1;
                continue;
            },
        };
        if pc != pivot_row {
            // swap rows pc and pivot_row
            let mut tmp: Vec<Rational> = Vec::new();
            data.set_and_swap(pc, &mut tmp);
            data.set_and_swap(pivot_row, &mut tmp);
            data.set_and_swap(pc, &mut tmp);
            proof {
                assert(data_view(data@) =~= swap_rows(d0, pc as nat, pivot_row as nat));
            }
            let label = swap_label(pc, pivot_row);
            let ops = swap_row_ops(n, pivot_row, pc, &label);
            let step = snapshot_step(&data, &vars, n, m, ops);
            steps.push(step);
            proof {
                assert(steps_view(steps@) =~= s0.push(
                    SpecStep {
                        matrix: snapshot(data_view(data@), vv, n as nat, m as nat),
                        row_ops: swap_ops(n as nat, pivot_row as nat, pc as nat, swap_label_spec(pc as nat, pivot_row as nat)),
                    },
                ));
            }
        }
        let ghost d1 = data_view(data@);
        let ghost s1 = steps_view(steps@);
        assert(d1[pivot_row as int] == data@[pivot_row as int]@);
        let pivot_val = data[pivot_row][col];
        assert(pivot_val == d1[pivot_row as int][col as int]);
        let mut rr = pivot_row + 1;
        while rr < n
            invariant
                a == matrix@,
                n == a.rows,
                m == a.cols,
                vv == a.vars,
                pivot_row < n,
                pivot_row + 1 <= rr <= n,
                col < m,
                m < usize::MAX,
                vars.len() == m,
                rows_shaped(data_view(data@), n as nat, m as nat),
                names_view(vars@) == vv,
                data_view(data@)[pivot_row as int] == d1[pivot_row as int],
                pivot_val == d1[pivot_row as int][col as int],
                elim_from(a.data, vv, n as nat, m as nat, 0, 0, seq![initial_step(a)]) == match elim_below(d1, vv, n as nat, m as nat, col as nat, pivot_row as nat, pivot_val, pivot_row as nat + 1, s1) {
                    None => None,
                    Some((d2, s2)) => elim_from(d2, vv, n as nat, m as nat, col as nat + 1, pivot_row as nat + 1, s2),
                },
                elim_below(d1, vv, n as nat, m as nat, col as nat, pivot_row as nat, pivot_val, pivot_row as nat + 1, s1)
                    == elim_below(
                    data_view(data@),
                    vv,
                    n as nat,
                    m as nat,
                    col as nat,
                    pivot_row as nat,
                    pivot_val,
                    rr as nat,
                    steps_view(steps@),
                ),
            decreases n - rr,
        {
            let ghost dcur = data_view(data@);
            let ghost scur = steps_view(steps@);
            assert(dcur[rr as int] == data@[rr as int]@);
            if data[rr][col].is_zero() {
                rr = rr + 1;
                continue;
            }
            let elim_val = data[rr][col];
            let mut row: Vec<Rational> = Vec::new();
            data.set_and_swap(rr, &mut row);
            assert(row@ == dcur[rr as int]);
            assert(data@[pivot_row as int]@ == dcur[pivot_row as int]);
            proof {
                lemma_combine_rows_len(dcur[rr as int], dcur[pivot_row as int], pivot_val, elim_val, col as nat, m as nat);
            }
            let ok = combine_into(&mut row, &data[pivot_row], pivot_val, elim_val, col, m);
            if !ok {
                return None;
            }
            let ghost nr = row@;
            data.set(rr, row);
            proof {
                assert(data_view(data@) =~= dcur.update(rr as int, nr));
            }
            if !multiplier_ok(&pivot_val) {
                return None;
            }
            let pv_text = format_multiplier(&pivot_val);
            let neg_val = match elim_val.checked_neg() {
                Some(v) => v,
                None => return None,
            };
            if !multiplier_ok(&neg_val) {
                return None;
            }
            let src_text = format_multiplier(&neg_val);
            let ops = elim_row_ops(n, pivot_row, rr, &src_text, &pv_text);
            let step = snapshot_step(&data, &vars, n, m, ops);
            steps.push(step);
            proof {
                assert(steps_view(steps@) =~= scur.push(
                    SpecStep {
                        matrix: snapshot(data_view(data@), vv, n as nat, m as nat),
                        row_ops: elim_ops(n as nat, pivot_row as nat, rr as nat, src_text@, pv_text@),
                    },
                ));
            }
            rr = rr + 1;
        }
        pivot_row = pivot_row + 1;
        col = col + 1;
    }
    let solution = match compute_solution(&data, &vars, n, m) {
        Some(s) => s,
        None => return None,
    };
    Some((steps, solution))
}

/// Whether a multiplier can be written (see [`multiplier_text`]).
fn multiplier_ok(v: &Rational) -> (b: bool)
    ensures
        b == multiplier_text(*v) is Some,
{
    v.den == 1 || v.num != i128::MIN
}

proof fn lemma_combine_rows_len(rr: Seq<Rational>, rp: Seq<Rational>, pv: Rational, e: Rational, j: nat, m: nat)
    requires
        rr.len() == m + 1,
    ensures
        combine_rows(rr, rp, pv, e, j, m) matches Some(x) ==> x.len() == m + 1,
    decreases m + 1 - j,
{
    if j <= m {
        match spec_mul(pv, rr[j as int]) {
            Some(a) => match spec_mul(e, rp[j as int]) {
                Some(b) => match spec_sub(a, b) {
                    Some(v) => lemma_combine_rows_len(rr.update(j as int, v), rp, pv, e, j + 1, m),
                    None => {},
                },
                None => {},
            },
            None => {},
        }
    }
}

/// Runs Gaussian elimination on the matrix (see [`gauss_spec`]): the steps, each
/// with the matrix after it and the annotation of every row, and the solution.
pub fn gaussian_elimination(matrix: &AugmentedMatrix) -> (r: (Vec<EliminationStep>, Solution))
    requires
        shaped(matrix@),
        matrix.cols < usize::MAX,
        gauss_spec(matrix@) is Some,
    ensures
        gauss_spec(matrix@) matches Some((steps, sol)) && steps_view(r.0@) == steps && r.1@ == sol,
{
    match try_gaussian_elimination(matrix) {
        Some(r) => r,
        None => (Vec::new(), Solution::NoSolution),
    }
}


// ---------------------------------------------------------------------------
// Laws of the elimination
// ---------------------------------------------------------------------------

/// A step keeps the shape of the input matrix: the same names, sizes, rows of
/// `cols + 1` entries, and one annotation per row.
pub open spec fn step_keeps_shape(s: SpecStep, a: SpecMatrix) -> bool {
    &&& s.matrix.vars == a.vars
    &&& s.matrix.rows == a.rows
    &&& s.matrix.cols == a.cols
    &&& s.row_ops.len() == a.rows
    &&& rows_shaped(s.matrix.data, a.rows, a.cols)
}

pub open spec fn steps_keep_shape(steps: Seq<SpecStep>, a: SpecMatrix) -> bool {
    forall|i: int| 0 <= i < steps.len() ==> step_keeps_shape(#[trigger] steps[i], a)
}

proof fn lemma_combine_rows_keeps(rr: Seq<Rational>, rp: Seq<Rational>, pv: Rational, e: Rational, j: nat, m: nat)
    requires
        rr.len() == m + 1,
    ensures
        combine_rows(rr, rp, pv, e, j, m) matches Some(x) ==> x.len() == m + 1 && forall|k: int| 0 <= k < j ==> x[k] == rr[k],
    decreases m + 1 - j,
{
    if j <= m {
        match spec_mul(pv, rr[j as int]) {
            Some(a) => match spec_mul(e, rp[j as int]) {
                Some(b) => match spec_sub(a, b) {
                    Some(v) => {
                        let r2 = rr.update(j as int, v);
                        lemma_combine_rows_keeps(r2, rp, pv, e, j + 1, m);
                        assert forall|k: int| 0 <= k < j implies r2[k] == rr[k] by {}
                    },
                    None => {},
                },
                None => {},
            },
            None => {},
        }
    }
}

/// Eliminating with the pivot entry `rp[col]` clears column `col` of the row: the
/// entry becomes zero and the entries left of it do not change.
pub proof fn law_elimination_clears_entry(rr: Seq<Rational>, rp: Seq<Rational>, col: nat, m: nat)
    requires
        col <= m,
        rr.len() == m + 1,
        rp.len() == m + 1,
    ensures
        combine_rows(rr, rp, rp[col as int], rr[col as int], col, m) matches Some(nr) ==> {
            &&& nr.len() == m + 1
            &&& nr[col as int] == zero_spec()
            &&& forall|k: int| 0 <= k < col ==> nr[k] == rr[k]
        },
{
    let pv = rp[col as int];
    let e = rr[col as int];
    crate::laws::law_mul_commutative(pv, e);
    match spec_mul(pv, e) {
        Some(x) => match spec_sub(x, x) {
            Some(v) => {
                crate::laws::law_sub_self(x);
                let r2 = rr.update(col as int, v);
                lemma_combine_rows_keeps(r2, rp, pv, e, col + 1, m);
            },
            None => {},
        },
        None => {},
    }
}

proof fn lemma_elim_below_shape(
    d: Seq<Seq<Rational>>,
    a: SpecMatrix,
    col: nat,
    p: nat,
    pv: Rational,
    r: nat,
    steps: Seq<SpecStep>,
)
    requires
        rows_shaped(d, a.rows, a.cols),
        steps_keep_shape(steps, a),
        p < a.rows,
        col < a.cols,
    ensures
        elim_below(d, a.vars, a.rows, a.cols, col, p, pv, r, steps) matches Some((d2, s2)) ==> {
            &&& rows_shaped(d2, a.rows, a.cols)
            &&& steps_keep_shape(s2, a)
            &&& s2.len() >= steps.len()
            &&& forall|i: int| 0 <= i < steps.len() ==> s2[i] == steps[i]
        },
    decreases a.rows - r,
{
    let n = a.rows;
    let m = a.cols;
    if r >= n {
    } else if d[r as int][col as int].num == 0 {
        lemma_elim_below_shape(d, a, col, p, pv, r + 1, steps);
    } else {
        let e = d[r as int][col as int];
        lemma_combine_rows_keeps(d[r as int], d[p as int], pv, e, col, m);
        match combine_rows(d[r as int], d[p as int], pv, e, col, m) {
            Some(nr) => {
                let d2 = d.update(r as int, nr);
                assert(rows_shaped(d2, n, m)) by {
                    assert forall|k: int| 0 <= k < n implies #[trigger] d2[k].len() == m + 1 by {
                        if k != r {
                            assert(d2[k] == d[k]);
                        }
                    }
                }
                match multiplier_text(pv) {
                    Some(pvs) => match spec_neg(e) {
                        Some(ne) => match multiplier_text(ne) {
                            Some(srcs) => {
                                let st = SpecStep { matrix: snapshot(d2, a.vars, n, m), row_ops: elim_ops(n, p, r, srcs, pvs) };
                                let s1 = steps.push(st);
                                assert(steps_keep_shape(s1, a)) by {
                                    assert forall|i: int| 0 <= i < s1.len() implies step_keeps_shape(#[trigger] s1[i], a) by {
                                        if i < steps.len() {
                                            assert(s1[i] == steps[i]);
                                        }
                                    }
                                }
                                lemma_elim_below_shape(d2, a, col, p, pv, r + 1, s1);
                            },
                            None => {},
                        },
                        None => {},
                    },
                    None => {},
                }
            },
            None => {},
        }
    }
}

proof fn lemma_elim_from_shape(d: Seq<Seq<Rational>>, a: SpecMatrix, col: nat, p: nat, steps: Seq<SpecStep>)
    requires
        rows_shaped(d, a.rows, a.cols),
        steps_keep_shape(steps, a),
    ensures
        elim_from(d, a.vars, a.rows, a.cols, col, p, steps) matches Some((d2, s2)) ==> {
            &&& rows_shaped(d2, a.rows, a.cols)
            &&& steps_keep_shape(s2, a)
            &&& s2.len() >= steps.len()
            &&& forall|i: int| 0 <= i < steps.len() ==> s2[i] == steps[i]
        },
    decreases a.cols - col,
{
    let n = a.rows;
    let m = a.cols;
    if col >= m || p >= n {
    } else {
        match find_pivot(d, col, p, n) {
            None => lemma_elim_from_shape(d, a, col + 1, p, steps),
            Some(pr) => {
                lemma_find_pivot_range(d, col, p, n);
                let d1 = if pr != p {
                    swap_rows(d, pr, p)
                } else {
                    d
                };
                let s1 = if pr != p {
                    steps.push(
                        SpecStep {
                            matrix: snapshot(d1, a.vars, n, m),
                            row_ops: swap_ops(n, p, pr, swap_label_spec(pr, p)),
                        },
                    )
                } else {
                    steps
                };
                assert(rows_shaped(d1, n, m)) by {
                    assert forall|k: int| 0 <= k < n implies #[trigger] d1[k].len() == m + 1 by {
                        if pr != p {
                            if k == pr {
                                assert(d1[k] == d[p as int]);
                            } else if k == p {
                                assert(d1[k] == d[pr as int]);
                            } else {
                                assert(d1[k] == d[k]);
                            }
                        }
                    }
                }
                assert(steps_keep_shape(s1, a)) by {
                    assert forall|i: int| 0 <= i < s1.len() implies step_keeps_shape(#[trigger] s1[i], a) by {
                        if i < steps.len() {
                            assert(s1[i] == steps[i]);
                        }
                    }
                }
                lemma_elim_below_shape(d1, a, col, p, d1[p as int][col as int], p + 1, s1);
                match elim_below(d1, a.vars, n, m, col, p, d1[p as int][col as int], p + 1, s1) {
                    Some((d2, s2)) => {
                        lemma_elim_from_shape(d2, a, col + 1, p + 1, s2);
                    },
                    None => {},
                }
            },
        }
    }
}

proof fn lemma_find_pivot_range(d: Seq<Seq<Rational>>, col: nat, r: nat, n: nat)
    ensures
        find_pivot(d, col, r, n) matches Some(x) ==> r <= x < n && d[x as int][col as int].num != 0,
    decreases n - r,
{
    if r < n && d[r as int][col as int].num == 0 {
        lemma_find_pivot_range(d, col, r + 1, n);
    }
}

/// Every recorded step shows a matrix of the input's shape (same names, as many rows
/// and columns, rows of `cols + 1` entries) with one annotation per row, and the
/// first step shows the input unchanged.
pub proof fn law_steps_keep_shape(a: SpecMatrix)
    requires
        shaped(a),
    ensures
        gauss_spec(a) matches Some((steps, sol)) ==> {
            &&& steps.len() >= 1
            &&& steps[0] == initial_step(a)
            &&& steps_keep_shape(steps, a)
        },
{
    let s0 = seq![initial_step(a)];
    assert(steps_keep_shape(s0, a)) by {
        assert forall|i: int| 0 <= i < s0.len() implies step_keeps_shape(#[trigger] s0[i], a) by {
            assert(s0[i] == initial_step(a));
        }
    }
    lemma_elim_from_shape(a.data, a, 0, 0, s0);
}

/// The system has no solution exactly when the final matrix has a row `0 = c` with
/// `c != 0`; otherwise the solution is unique exactly when every column has a pivot.
pub proof fn law_solution_kind(d: Seq<Seq<Rational>>, vars: Seq<Seq<char>>, n: nat, m: nat)
    ensures
        solution_spec(d, vars, n, m) matches Some(s) ==> {
            &&& (s is NoSolution <==> crate::solution::inconsistent(d, n, m))
            &&& (s is Unique <==> !crate::solution::inconsistent(d, n, m) && crate::solution::free_columns(crate::solution::basic_columns(d, n, m), m).len() == 0)
        },
{
}

} // verus!
