use vstd::prelude::*;
use crate::matrix::{data_view, names_view};
use crate::names::{assoc_get, assoc_lookup, assoc_put, assoc_store, entries_view, sorted_keys};
use crate::rational::{
    display_spec, displayable, lemma_make, one_spec, spec_abs, spec_div, spec_mul, spec_sub,
    zero_spec, Rational,
};
use crate::text::{dec_int, dec_nat, push_str, u128_to_string};

verus! {

/// One variable of a parametric solution and its expression in the parameters.
#[derive(Debug)]
pub struct ParametricVar {
    pub var: String,
    pub expr: String,
}

/// The solution of a system: one value per variable (sorted by name), an expression
/// per variable in free parameters, or none.
#[derive(Debug)]
pub enum Solution {
    Unique(Vec<(String, Rational)>),
    Parametric(Vec<ParametricVar>),
    NoSolution,
}

pub enum SpecSolution {
    Unique(Seq<(Seq<char>, Rational)>),
    Parametric(Seq<(Seq<char>, Seq<char>)>),
    NoSolution,
}

pub open spec fn params_view(v: Seq<ParametricVar>) -> Seq<(Seq<char>, Seq<char>)> {
    v.map_values(|p: ParametricVar| (p.var@, p.expr@))
}

impl View for Solution {
    type V = SpecSolution;

    open spec fn view(&self) -> SpecSolution {
        match self {
            Solution::Unique(v) => SpecSolution::Unique(entries_view(v@)),
            Solution::Parametric(v) => SpecSolution::Parametric(params_view(v@)),
            Solution::NoSolution => SpecSolution::NoSolution,
        }
    }
}

// ---------------------------------------------------------------------------
// Reading the solution off an echelon matrix
// ---------------------------------------------------------------------------

pub type Rows = Seq<Seq<Rational>>;

/// For each column, the row of its pivot: scanning the columns left to right, a
/// column whose entry in the current row is non-zero takes that row, and the next
/// row becomes current.
pub open spec fn pivot_rows(d: Rows, n: nat, m: nat, col: nat, r: nat, bv: Seq<Option<nat>>) -> Seq<Option<nat>>
    decreases m - col,
{
    if col >= m || r >= n {
        bv
    } else if d[r as int][col as int].num != 0 {
        pivot_rows(d, n, m, col + 1, r + 1, bv.update(col as int, Some(r)))
    } else {
        pivot_rows(d, n, m, col + 1, r, bv)
    }
}

pub open spec fn basic_columns(d: Rows, n: nat, m: nat) -> Seq<Option<nat>> {
    pivot_rows(d, n, m, 0, 0, Seq::new(m, |i: int| None))
}

/// A row `0 = c` with `c != 0`.
pub open spec fn row_inconsistent(row: Seq<Rational>, m: nat) -> bool {
    &&& forall|c: int| 0 <= c < m ==> (#[trigger] row[c]).num == 0
    &&& row[m as int].num != 0
}

pub open spec fn inconsistent(d: Rows, n: nat, m: nat) -> bool {
    exists|r: int| 0 <= r < n && row_inconsistent(#[trigger] d[r], m)
}

/// The columns `0..k` without a pivot, in increasing order.
pub open spec fn free_columns(bv: Seq<Option<nat>>, k: nat) -> Seq<nat>
    decreases k,
{
    if k == 0 {
        Seq::empty()
    } else if bv[k - 1] is None {
        free_columns(bv, (k - 1) as nat).push((k - 1) as nat)
    } else {
        free_columns(bv, (k - 1) as nat)
    }
}

/// `rhs - sum(row[j] * value of vars[j])` over the columns `j..m` whose value is
/// already known.
pub open spec fn subst_rhs(row: Seq<Rational>, vars: Seq<Seq<char>>, sol: Seq<(Seq<char>, Rational)>, j: nat, m: nat, rhs: Rational) -> Option<Rational>
    decreases m - j,
{
    if j >= m {
        Some(rhs)
    } else if row[j as int].num == 0 {
        subst_rhs(row, vars, sol, j + 1, m, rhs)
    } else {
        match assoc_get(sol, vars[j as int]) {
            None => subst_rhs(row, vars, sol, j + 1, m, rhs),
            Some(val) => match spec_mul(row[j as int], val) {
                None => None,
                Some(p) => match spec_sub(rhs, p) {
                    None => None,
                    Some(r2) => subst_rhs(row, vars, sol, j + 1, m, r2),
                },
            },
        }
    }
}

pub open spec fn is_one_spec(x: Rational) -> bool {
    x.num == 1 && x.den == 1
}

/// Back substitution over the columns `c-1, c-2, ..., 0`.
pub open spec fn back_substitute(d: Rows, vars: Seq<Seq<char>>, bv: Seq<Option<nat>>, m: nat, c: nat, sol: Seq<(Seq<char>, Rational)>) -> Option<Seq<(Seq<char>, Rational)>>
    decreases c,
{
    if c == 0 {
        Some(sol)
    } else {
        let col = (c - 1) as nat;
        match bv[col as int] {
            None => back_substitute(d, vars, bv, m, col, sol),
            Some(r) => {
                let row = d[r as int];
                match subst_rhs(row, vars, sol, col + 1, m, row[m as int]) {
                    None => None,
                    Some(rhs) => {
                        let v = if is_one_spec(row[col as int]) {
                            Some(rhs)
                        } else {
                            spec_div(rhs, row[col as int])
                        };
                        match v {
                            None => None,
                            Some(x) => back_substitute(d, vars, bv, m, col, assoc_put(sol, vars[col as int], x)),
                        }
                    },
                }
            },
        }
    }
}

/// The name of the free parameter `i` of `count`: "t" alone; "t", "s", "u" for up to
/// three; otherwise "t1", "t2", ...
pub open spec fn param_name(count: nat, i: nat) -> Seq<char> {
    if count == 1 {
        "t"@
    } else if count <= 3 {
        seq![
            if i == 0 {
                't'
            } else if i == 1 {
                's'
            } else {
                'u'
            },
        ]
    } else {
        "t"@ + dec_nat(i + 1)
    }
}

/// The names of `count` parameters.
pub open spec fn param_names(count: nat) -> Seq<Seq<char>> {
    Seq::new(count, |i: int| param_name(count, i as nat))
}

/// The free variables, each equal to its own parameter.
pub open spec fn free_entries(vars: Seq<Seq<char>>, free: Seq<nat>, pnames: Seq<Seq<char>>) -> Seq<(Seq<char>, Seq<char>)> {
    Seq::new(free.len(), |i: int| (vars[free[i] as int], pnames[i]))
}

pub open spec fn zeros(k: nat) -> Seq<Rational> {
    Seq::new(k, |i: int| zero_spec())
}

pub open spec fn unit_vec(k: nat, i: nat) -> Seq<Rational> {
    Seq::new(k, |j: int| if j == i { one_spec() } else { zero_spec() })
}

/// An affine expression in the parameters: coefficients and constant.
pub type Expr = (Seq<Rational>, Rational);

/// Each free column `free[i]` (for `i < k`) is its own parameter `i`.
pub open spec fn seed(free: Seq<nat>, k: nat, m: nat, nf: nat) -> Seq<Option<Expr>>
    decreases k,
{
    if k == 0 {
        Seq::new(m, |c: int| None)
    } else {
        seed(free, (k - 1) as nat, m, nf).update(free[k - 1] as int, Some((unit_vec(nf, (k - 1) as nat), zero_spec())))
    }
}

/// `coeffs[i] := coeffs[i] - c * ec[i]` for `i` in `fi..nf`.
pub open spec fn sub_scaled(coeffs: Seq<Rational>, c: Rational, ec: Seq<Rational>, fi: nat, nf: nat) -> Option<Seq<Rational>>
    decreases nf - fi,
{
    if fi >= nf {
        Some(coeffs)
    } else {
        match spec_mul(c, ec[fi as int]) {
            None => None,
            Some(p) => match spec_sub(coeffs[fi as int], p) {
                None => None,
                Some(v) => sub_scaled(coeffs.update(fi as int, v), c, ec, fi + 1, nf),
            },
        }
    }
}

/// `coeffs[i] := coeffs[i] / pivot` for `i` in `fi..nf`.
pub open spec fn divide_all(coeffs: Seq<Rational>, pivot: Rational, fi: nat, nf: nat) -> Option<Seq<Rational>>
    decreases nf - fi,
{
    if fi >= nf {
        Some(coeffs)
    } else {
        match spec_div(coeffs[fi as int], pivot) {
            None => None,
            Some(v) => divide_all(coeffs.update(fi as int, v), pivot, fi + 1, nf),
        }
    }
}

/// Subtracts `row[j]` times the expression of each known column `j` (for `j` in
/// `j..m`) from the expression `(coeffs, constant)`.
pub open spec fn accumulate(row: Seq<Rational>, solved: Seq<Option<Expr>>, nf: nat, j: nat, m: nat, coeffs: Seq<Rational>, constant: Rational) -> Option<Expr>
    decreases m - j,
{
    if j >= m {
        Some((coeffs, constant))
    } else if row[j as int].num == 0 {
        accumulate(row, solved, nf, j + 1, m, coeffs, constant)
    } else {
        match solved[j as int] {
            None => accumulate(row, solved, nf, j + 1, m, coeffs, constant),
            Some(ex) => {
                let c = row[j as int];
                match spec_mul(c, ex.1) {
                    None => None,
                    Some(p) => match spec_sub(constant, p) {
                        None => None,
                        Some(k2) => match sub_scaled(coeffs, c, ex.0, 0, nf) {
                            None => None,
                            Some(c2) => accumulate(row, solved, nf, j + 1, m, c2, k2),
                        },
                    },
                }
            },
        }
    }
}

/// The text of a coefficient's magnitude: nothing for 1, the integer, or the
/// fraction.
pub open spec fn coeff_text(a: Rational) -> Seq<char> {
    if is_one_spec(a) {
        Seq::empty()
    } else if a.den == 1 {
        dec_int(a.num as int)
    } else {
        display_spec(a)
    }
}

/// The parts `-ct`, `ct` (first) or `+ ct` for the non-zero coefficients `fi..nf`.
pub open spec fn term_parts(coeffs: Seq<Rational>, pnames: Seq<Seq<char>>, fi: nat, nf: nat, parts: Seq<Seq<char>>) -> Option<Seq<Seq<char>>>
    decreases nf - fi,
{
    if fi >= nf {
        Some(parts)
    } else {
        let c = coeffs[fi as int];
        if c.num == 0 {
            term_parts(coeffs, pnames, fi + 1, nf, parts)
        } else {
            match spec_abs(c) {
                None => None,
                Some(a) => {
                    let cs = coeff_text(a) + pnames[fi as int];
                    let piece = if c.num < 0 {
                        "-"@ + cs
                    } else if parts.len() == 0 {
                        cs
                    } else {
                        "+ "@ + cs
                    };
                    term_parts(coeffs, pnames, fi + 1, nf, parts.push(piece))
                },
            }
        }
    }
}

/// Appends the part of a non-zero constant.
pub open spec fn constant_part(constant: Rational, parts: Seq<Seq<char>>) -> Option<Seq<Seq<char>>> {
    if constant.num == 0 {
        Some(parts)
    } else {
        match spec_abs(constant) {
            None => None,
            Some(a) => {
                let rs = if a.den == 1 {
                    dec_int(a.num as int)
                } else {
                    display_spec(a)
                };
                Some(
                    parts.push(
                        if constant.num < 0 {
                            if parts.len() == 0 {
                                "-"@ + rs
                            } else {
                                "- "@ + rs
                            }
                        } else {
                            if parts.len() == 0 {
                                rs
                            } else {
                                "+ "@ + rs
                            }
                        },
                    ),
                )
            },
        }
    }
}

/// The parts joined by single spaces.
pub open spec fn join_spaces(parts: Seq<Seq<char>>) -> Seq<char>
    decreases parts.len(),
{
    if parts.len() == 0 {
        Seq::empty()
    } else if parts.len() == 1 {
        parts[0]
    } else {
        join_spaces(parts.drop_last()) + " "@ + parts.last()
    }
}

pub open spec fn expr_text(parts: Seq<Seq<char>>) -> Seq<char> {
    if parts.len() == 0 {
        "0"@
    } else {
        join_spaces(parts)
    }
}

/// Divides an expression by the pivot unless the pivot is 1.
pub open spec fn scale_expr(ex: Expr, pivot: Rational, nf: nat) -> Option<Expr> {
    if is_one_spec(pivot) {
        Some(ex)
    } else {
        match divide_all(ex.0, pivot, 0, nf) {
            None => None,
            Some(c2) => match spec_div(ex.1, pivot) {
                None => None,
                Some(k2) => Some((c2, k2)),
            },
        }
    }
}

/// The text of an expression.
pub open spec fn format_expr(ex: Expr, pnames: Seq<Seq<char>>, nf: nat) -> Option<Seq<char>> {
    match term_parts(ex.0, pnames, 0, nf, Seq::empty()) {
        None => None,
        Some(parts) => match constant_part(ex.1, parts) {
            None => None,
            Some(p2) => Some(expr_text(p2)),
        },
    }
}

/// Expresses the pivot columns `c-1, ..., 0` in the parameters, from right to left.
pub open spec fn param_loop(d: Rows, vars: Seq<Seq<char>>, bv: Seq<Option<nat>>, m: nat, nf: nat, pnames: Seq<Seq<char>>, c: nat, solved: Seq<Option<Expr>>, params: Seq<(Seq<char>, Seq<char>)>) -> Option<Seq<(Seq<char>, Seq<char>)>>
    decreases c,
{
    if c == 0 {
        Some(params)
    } else {
        let col = (c - 1) as nat;
        match bv[col as int] {
            None => param_loop(d, vars, bv, m, nf, pnames, col, solved, params),
            Some(r) => {
                let row = d[r as int];
                match accumulate(row, solved, nf, col + 1, m, zeros(nf), row[m as int]) {
                    None => None,
                    Some(ex) => match scale_expr(ex, row[col as int], nf) {
                        None => None,
                        Some(ex2) => match format_expr(ex2, pnames, nf) {
                            None => None,
                            Some(text) => param_loop(
                                d,
                                vars,
                                bv,
                                m,
                                nf,
                                pnames,
                                col,
                                solved.update(col as int, Some(ex2)),
                                params.push((vars[col as int], text)),
                            ),
                        },
                    },
                }
            },
        }
    }
}

/// The solution read off the final matrix `d` (`n` rows, `m` variables): none if a
/// row reads `0 = c` with `c != 0`; else, when every column has a pivot, the values
/// by back substitution; else every variable as an expression in parameters for the
/// free columns. `None` where the arithmetic overflows.
pub open spec fn solution_spec(d: Rows, vars: Seq<Seq<char>>, n: nat, m: nat) -> Option<SpecSolution> {
    let bv = basic_columns(d, n, m);
    if inconsistent(d, n, m) {
        Some(SpecSolution::NoSolution)
    } else {
        let free = free_columns(bv, m);
        if free.len() == 0 {
            match back_substitute(d, vars, bv, m, m, Seq::empty()) {
                None => None,
                Some(sol) => Some(SpecSolution::Unique(sol)),
            }
        } else {
            let nf = free.len();
            let pnames = param_names(nf);
            match param_loop(d, vars, bv, m, nf, pnames, m, seed(free, nf, m, nf), Seq::empty()) {
                None => None,
                Some(params) => Some(SpecSolution::Parametric((params + free_entries(vars, free, pnames)).reverse())),
            }
        }
    }
}

// ---------------------------------------------------------------------------
// Executable
// ---------------------------------------------------------------------------

pub open spec fn opt_view(v: Seq<Option<usize>>) -> Seq<Option<nat>> {
    v.map_values(|o: Option<usize>| match o {
        Some(x) => Some(x as nat),
        None => None,
    })
}

pub open spec fn rows_shaped(d: Rows, n: nat, m: nat) -> bool {
    &&& d.len() == n
    &&& forall|r: int| 0 <= r < n ==> #[trigger] d[r].len() == m + 1
}

pub(crate) proof fn lemma_free_columns(bv: Seq<Option<nat>>, k: nat)
    requires
        k <= bv.len(),
    ensures
        forall|i: int| 0 <= i < free_columns(bv, k).len() ==> #[trigger] free_columns(bv, k)[i] < k,
        forall|i: int| 0 <= i < free_columns(bv, k).len() ==> bv[#[trigger] free_columns(bv, k)[i] as int] is None,
        free_columns(bv, k).len() == 0 ==> forall|c: int| 0 <= c < k ==> #[trigger] bv[c] is Some,
        forall|i: int, j: int| 0 <= i < j < free_columns(bv, k).len() ==> free_columns(bv, k)[i] < free_columns(bv, k)[j],
        free_columns(bv, k).len() <= k,
    decreases k,
{
    if k > 0 {
        lemma_free_columns(bv, (k - 1) as nat);
    }
}

/// The column of each pivot.
fn find_basic(data: &Vec<Vec<Rational>>, n: usize, m: usize) -> (bv: Vec<Option<usize>>)
    requires
        rows_shaped(data_view(data@), n as nat, m as nat),
    ensures
        bv.len() == m,
        forall|c: int| 0 <= c < m ==> (#[trigger] bv@[c] matches Some(x) ==> x < n),
        opt_view(bv@) == basic_columns(data_view(data@), n as nat, m as nat),
{
    let ghost d = data_view(data@);
    let mut bv: Vec<Option<usize>> = Vec::new();
    let mut i: usize = 0;
    while i < m
        invariant
            i <= m,
            bv.len() == i,
            forall|c: int| 0 <= c < i ==> #[trigger] bv@[c] is None,
        decreases m - i,
    {
        bv.push(None);
        i = i + 1;
    }
    assert(opt_view(bv@) =~= Seq::new(m as nat, |i: int| None));
    let mut r: usize = 0;
    let mut col: usize = 0;
    while col < m && r < n
        invariant
            col <= m,
            r <= n,
            bv.len() == m,
            d == data_view(data@),
            rows_shaped(d, n as nat, m as nat),
            forall|c: int| 0 <= c < m ==> (#[trigger] bv@[c] matches Some(x) ==> x < n),
            basic_columns(d, n as nat, m as nat) == pivot_rows(d, n as nat, m as nat, col as nat, r as nat, opt_view(bv@)),
        decreases m - col,
    {
        assert(d[r as int][col as int] == data@[r as int]@[col as int]);
        if !data[r][col].is_zero() {
            let ghost before = opt_view(bv@);
            bv.set(col, Some(r));
            assert(opt_view(bv@) =~= before.update(col as int, Some(r as nat)));
            r = r + 1;
        }
        col = col + 1;
    }
    bv
}


/// Whether some row reads `0 = c` with `c != 0`.
fn has_inconsistent_row(data: &Vec<Vec<Rational>>, n: usize, m: usize) -> (b: bool)
    requires
        rows_shaped(data_view(data@), n as nat, m as nat),
    ensures
        b == inconsistent(data_view(data@), n as nat, m as nat),
{
    let ghost d = data_view(data@);
    let mut r: usize = 0;
    while r < n
        invariant
            r <= n,
            d == data_view(data@),
            rows_shaped(d, n as nat, m as nat),
            forall|k: int| 0 <= k < r ==> !row_inconsistent(#[trigger] d[k], m as nat),
        decreases n - r,
    {
        let row = &data[r];
        assert(row@ == d[r as int]);
        let mut all_zero = true;
        let mut c: usize = 0;
        while c < m
            invariant
                c <= m,
                row@.len() == m + 1,
                all_zero == forall|k: int| 0 <= k < c ==> (#[trigger] row@[k]).num == 0,
            decreases m - c,
        {
            if !row[c].is_zero() {
                all_zero = false;
            }
            c = c + 1;
        }
        if all_zero && !row[m].is_zero() {
            assert(row_inconsistent(d[r as int], m as nat));
            return true;
        }
        r = r + 1;
    }
    false
}

/// The columns without a pivot.
fn free_list(bv: &Vec<Option<usize>>) -> (f: Vec<usize>)
    ensures
        f@.map_values(|x: usize| x as nat) == free_columns(opt_view(bv@), bv.len() as nat),
        forall|i: int| 0 <= i < f.len() ==> #[trigger] f@[i] < bv.len(),
{
    let mut f: Vec<usize> = Vec::new();
    let mut c: usize = 0;
    let ghost ob = opt_view(bv@);
    while c < bv.len()
        invariant
            c <= bv.len(),
            ob == opt_view(bv@),
            f@.map_values(|x: usize| x as nat) == free_columns(ob, c as nat),
            forall|i: int| 0 <= i < f.len() ==> #[trigger] f@[i] < c,
        decreases bv.len() - c,
    {
        assert(ob[c as int] is None <==> bv@[c as int] is None);
        if bv[c].is_none() {
            let ghost before = f@;
            f.push(c);
            assert(f@.map_values(|x: usize| x as nat) =~= before.map_values(|x: usize| x as nat).push(c as nat));
        }
        c = c + 1;
    }
    f
}

/// `rhs - sum(row[j] * value of vars[j])` over the known columns `j` in `from..m`.
fn subst_rhs_exec(row: &Vec<Rational>, vars: &Vec<String>, sol: &Vec<(String, Rational)>, from: usize, m: usize, rhs0: Rational) -> (r: Option<Rational>)
    requires
        row.len() == m + 1,
        vars.len() == m,
        from <= m,
        sorted_keys(entries_view(sol@)),
    ensures
        r == subst_rhs(row@, names_view(vars@), entries_view(sol@), from as nat, m as nat, rhs0),
{
    let ghost vv = names_view(vars@);
    let ghost sv = entries_view(sol@);
    let mut rhs = rhs0;
    let mut j = from;
    while j < m
        invariant
            from <= j <= m,
            row.len() == m + 1,
            vars.len() == m,
            vv == names_view(vars@),
            sv == entries_view(sol@),
            sorted_keys(sv),
            subst_rhs(row@, vv, sv, from as nat, m as nat, rhs0) == subst_rhs(row@, vv, sv, j as nat, m as nat, rhs),
        decreases m - j,
    {
        if !row[j].is_zero() {
            assert(vv[j as int] == vars@[j as int]@);
            match assoc_lookup(sol, &vars[j]) {
                Some(val) => {
                    let p = match row[j].checked_mul(val) {
                        Some(p) => p,
                        None => return None,
                    };
                    rhs = match rhs.checked_sub(p) {
                        Some(v) => v,
                        None => return None,
                    };
                },
                None => {},
            }
        }
        j = j + 1;
    }
    Some(rhs)
}

/// Back substitution when every column has a pivot.
fn unique_solution(data: &Vec<Vec<Rational>>, vars: &Vec<String>, bv: &Vec<Option<usize>>, n: usize, m: usize) -> (r: Option<Vec<(String, Rational)>>)
    requires
        rows_shaped(data_view(data@), n as nat, m as nat),
        vars.len() == m,
        bv.len() == m,
        forall|c: int| 0 <= c < m ==> (#[trigger] bv@[c] matches Some(x) ==> x < n),
    ensures
        match back_substitute(data_view(data@), names_view(vars@), opt_view(bv@), m as nat, m as nat, Seq::empty()) {
            None => r is None,
            Some(sol) => r matches Some(v) && entries_view(v@) == sol,
        },
{
    let ghost d = data_view(data@);
    let ghost vv = names_view(vars@);
    let ghost ob = opt_view(bv@);
    let mut sol: Vec<(String, Rational)> = Vec::new();
    assert(entries_view(sol@) =~= Seq::<(Seq<char>, Rational)>::empty());
    let mut c = m;
    while c > 0
        invariant
            c <= m,
            d == data_view(data@),
            rows_shaped(d, n as nat, m as nat),
            vv == names_view(vars@),
            vars.len() == m,
            ob == opt_view(bv@),
            bv.len() == m,
            forall|k: int| 0 <= k < m ==> (#[trigger] bv@[k] matches Some(x) ==> x < n),
            sorted_keys(entries_view(sol@)),
            back_substitute(d, vv, ob, m as nat, m as nat, Seq::empty()) == back_substitute(d, vv, ob, m as nat, c as nat, entries_view(sol@)),
        decreases c,
    {
        c = c - 1;
        let col = c;
        match bv[col] {
            None => {},
            Some(r) => {
                let row = &data[r];
                assert(row@ == d[r as int]);
                let rhs = match subst_rhs_exec(row, vars, &sol, col + 1, m, row[m]) {
                    Some(v) => v,
                    None => return None,
                };
                let x = if row[col].is_one() {
                    rhs
                } else {
                    match rhs.checked_div(row[col]) {
                        Some(v) => v,
                        None => return None,
                    }
                };
                let name = vars[col].clone();
                assert(name@ == vv[col as int]);
                assoc_store(&mut sol, name, x);
            },
        }
    }
    Some(sol)
}


pub open spec fn solved_view(v: Seq<Option<(Vec<Rational>, Rational)>>) -> Seq<Option<Expr>> {
    v.map_values(|o: Option<(Vec<Rational>, Rational)>| match o {
        Some(e) => Some((e.0@, e.1)),
        None => None,
    })
}

pub open spec fn nat_view(v: Seq<usize>) -> Seq<nat> {
    v.map_values(|x: usize| x as nat)
}

/// The name of the free parameter `i` of `count` (see [`param_name`]).
fn param_name_exec(count: usize, i: usize) -> (s: String)
    requires
        i < count,
    ensures
        s@ == param_name(count as nat, i as nat),
{
    if count == 1 {
        String::from_str("t")
    } else if count <= 3 {
        let mut s = String::new();
        if i == 0 {
            s.push('t');
        } else if i == 1 {
            s.push('s');
        } else {
            s.push('u');
        }
        assert(s@ =~= param_name(count as nat, i as nat));
        s
    } else {
        let mut s = String::from_str("t");
        let d = u128_to_string((i + 1) as u128);
        push_str(&mut s, d.as_str());
        s
    }
}

fn zeros_exec(k: usize) -> (v: Vec<Rational>)
    ensures
        v@ == zeros(k as nat),
{
    let mut v: Vec<Rational> = Vec::new();
    let mut i: usize = 0;
    while i < k
        invariant
            i <= k,
            v@ == zeros(i as nat),
        decreases k - i,
    {
        v.push(Rational::zero());
        i = i + 1;
        assert(v@ =~= zeros(i as nat));
    }
    v
}

fn unit_exec(k: usize, at: usize) -> (v: Vec<Rational>)
    ensures
        v@ == unit_vec(k as nat, at as nat),
{
    let mut v: Vec<Rational> = Vec::new();
    let mut i: usize = 0;
    while i < k
        invariant
            i <= k,
            v@ == unit_vec(k as nat, at as nat).subrange(0, i as int),
        decreases k - i,
    {
        if i == at {
            v.push(Rational::one());
        } else {
            v.push(Rational::zero());
        }
        i = i + 1;
        assert(v@ =~= unit_vec(k as nat, at as nat).subrange(0, i as int));
    }
    assert(unit_vec(k as nat, at as nat).subrange(0, k as int) =~= unit_vec(k as nat, at as nat));
    v
}

fn copy_vec(v: &Vec<Rational>) -> (r: Vec<Rational>)
    ensures
        r@ == v@,
{
    let mut r: Vec<Rational> = Vec::new();
    let mut i: usize = 0;
    while i < v.len()
        invariant
            i <= v.len(),
            r@ == v@.subrange(0, i as int),
        decreases v.len() - i,
    {
        r.push(v[i]);
        i = i + 1;
        assert(r@ =~= v@.subrange(0, i as int));
    }
    assert(v@.subrange(0, v.len() as int) =~= v@);
    r
}

/// Every free column is its own parameter.
fn seed_exec(free: &Vec<usize>, m: usize) -> (v: Vec<Option<(Vec<Rational>, Rational)>>)
    requires
        forall|i: int| 0 <= i < free.len() ==> #[trigger] free@[i] < m,
    ensures
        v.len() == m,
        solved_view(v@) == seed(nat_view(free@), free.len() as nat, m as nat, free.len() as nat),
{
    let nf = free.len();
    let ghost fv = nat_view(free@);
    let mut v: Vec<Option<(Vec<Rational>, Rational)>> = Vec::new();
    let mut i: usize = 0;
    while i < m
        invariant
            i <= m,
            v.len() == i,
            forall|c: int| 0 <= c < i ==> #[trigger] v@[c] is None,
        decreases m - i,
    {
        v.push(None);
        i = i + 1;
    }
    assert(solved_view(v@) =~= seed(fv, 0, m as nat, nf as nat));
    let mut k: usize = 0;
    while k < nf
        invariant
            k <= nf,
            nf == free.len(),
            fv == nat_view(free@),
            v.len() == m,
            forall|i: int| 0 <= i < free.len() ==> #[trigger] free@[i] < m,
            solved_view(v@) == seed(fv, k as nat, m as nat, nf as nat),
        decreases nf - k,
    {
        let ghost before = solved_view(v@);
        let u = unit_exec(nf, k);
        let ghost uv = u@;
        v.set(free[k], Some((u, Rational::zero())));
        k = k + 1;
        assert(solved_view(v@) =~= before.update(fv[k - 1] as int, Some((uv, zero_spec()))));
    }
    v
}

/// `coeffs[i] := coeffs[i] - c * ec[i]` for every `i`.
fn sub_scaled_exec(coeffs: &mut Vec<Rational>, c: Rational, ec: &Vec<Rational>, nf: usize) -> (ok: bool)
    requires
        old(coeffs).len() == nf,
        ec.len() == nf,
    ensures
        ok <==> sub_scaled(old(coeffs)@, c, ec@, 0, nf as nat) is Some,
        ok ==> sub_scaled(old(coeffs)@, c, ec@, 0, nf as nat) == Some(final(coeffs)@),
        final(coeffs).len() == nf,
{
    let ghost orig = coeffs@;
    let mut fi: usize = 0;
    while fi < nf
        invariant
            fi <= nf,
            coeffs.len() == nf,
            ec.len() == nf,
            orig == old(coeffs)@,
            sub_scaled(orig, c, ec@, 0, nf as nat) == sub_scaled(coeffs@, c, ec@, fi as nat, nf as nat),
        decreases nf - fi,
    {
        let p = match c.checked_mul(ec[fi]) {
            Some(p) => p,
            None => {
                assert(sub_scaled(coeffs@, c, ec@, fi as nat, nf as nat) is None);
                return false;
            },
        };
        let v = match coeffs[fi].checked_sub(p) {
            Some(v) => v,
            None => {
                assert(sub_scaled(coeffs@, c, ec@, fi as nat, nf as nat) is None);
                return false;
            },
        };
        coeffs.set(fi, v);
        fi = fi + 1;
    }
    true
}

/// `coeffs[i] := coeffs[i] / pivot` for every `i`.
fn divide_all_exec(coeffs: &mut Vec<Rational>, pivot: Rational, nf: usize) -> (ok: bool)
    requires
        old(coeffs).len() == nf,
    ensures
        ok <==> divide_all(old(coeffs)@, pivot, 0, nf as nat) is Some,
        ok ==> divide_all(old(coeffs)@, pivot, 0, nf as nat) == Some(final(coeffs)@),
        final(coeffs).len() == nf,
{
    let ghost orig = coeffs@;
    let mut fi: usize = 0;
    while fi < nf
        invariant
            fi <= nf,
            coeffs.len() == nf,
            orig == old(coeffs)@,
            divide_all(orig, pivot, 0, nf as nat) == divide_all(coeffs@, pivot, fi as nat, nf as nat),
        decreases nf - fi,
    {
        let v = match coeffs[fi].checked_div(pivot) {
            Some(v) => v,
            None => {
                assert(divide_all(coeffs@, pivot, fi as nat, nf as nat) is None);
                return false;
            },
        };
        coeffs.set(fi, v);
        fi = fi + 1;
    }
    true
}

/// The expression-so-far of known columns in `solved` all have `nf` coefficients.
pub open spec fn solved_ok(solved: Seq<Option<Expr>>, nf: nat) -> bool {
    forall|c: int| 0 <= c < solved.len() ==> (#[trigger] solved[c] matches Some(ex) ==> ex.0.len() == nf)
}

/// The expression of a pivot column before dividing by the pivot.
fn accumulate_exec(row: &Vec<Rational>, solved: &Vec<Option<(Vec<Rational>, Rational)>>, nf: usize, from: usize, m: usize) -> (r: Option<(Vec<Rational>, Rational)>)
    requires
        row.len() == m + 1,
        solved.len() == m,
        from <= m,
        solved_ok(solved_view(solved@), nf as nat),
    ensures
        match accumulate(row@, solved_view(solved@), nf as nat, from as nat, m as nat, zeros(nf as nat), row@[m as int]) {
            None => r is None,
            Some(ex) => r matches Some(x) && x.0@ == ex.0 && x.1 == ex.1 && x.0.len() == nf,
        },
{
    let ghost sv = solved_view(solved@);
    let mut coeffs = zeros_exec(nf);
    let mut constant = row[m];
    let mut j = from;
    while j < m
        invariant
            from <= j <= m,
            row.len() == m + 1,
            solved.len() == m,
            sv == solved_view(solved@),
            solved_ok(sv, nf as nat),
            coeffs.len() == nf,
            accumulate(row@, sv, nf as nat, from as nat, m as nat, zeros(nf as nat), row@[m as int])
                == accumulate(row@, sv, nf as nat, j as nat, m as nat, coeffs@, constant),
        decreases m - j,
    {
        let c = row[j];
        if !c.is_zero() {
            match &solved[j] {
                Some(ex) => {
                    assert(sv[j as int] == Some((ex.0@, ex.1)));
                    let p = match c.checked_mul(ex.1) {
                        Some(p) => p,
                        None => return None,
                    };
                    constant = match constant.checked_sub(p) {
                        Some(v) => v,
                        None => return None,
                    };
                    let ok = sub_scaled_exec(&mut coeffs, c, &ex.0, nf);
                    if !ok {
                        return None;
                    }
                },
                None => {},
            }
        }
        j = j + 1;
    }
    Some((coeffs, constant))
}

/// The text of a coefficient's magnitude (see [`coeff_text`]).
fn coeff_text_exec(a: &Rational) -> (s: String)
    requires
        displayable(*a),
    ensures
        s@ == coeff_text(*a),
{
    if a.is_one() {
        String::new()
    } else if a.is_integer() {
        crate::text::i128_to_string(a.num)
    } else {
        a.to_display_string()
    }
}

/// What `spec_abs` builds can always be written.
proof fn lemma_abs_displayable(c: Rational)
    ensures
        spec_abs(c) matches Some(a) ==> displayable(a),
{
    lemma_make(crate::number_theory::abs_int(c.num as int) as int, c.den as int);
    match spec_abs(c) {
        Some(a) => {
            crate::rational::lemma_canon(crate::number_theory::abs_int(c.num as int) as int, c.den as int);
        },
        None => {},
    }
}

/// The parts of the non-zero coefficients (see [`term_parts`]).
pub(crate) fn term_parts_exec(coeffs: &Vec<Rational>, pnames: &Vec<String>, nf: usize) -> (r: Option<Vec<String>>)
    requires
        coeffs.len() == nf,
        pnames.len() == nf,
    ensures
        match term_parts(coeffs@, names_view(pnames@), 0, nf as nat, Seq::empty()) {
            None => r is None,
            Some(p) => r matches Some(v) && names_view(v@) == p,
        },
{
    let ghost pn = names_view(pnames@);
    let mut parts: Vec<String> = Vec::new();
    assert(names_view(parts@) =~= Seq::<Seq<char>>::empty());
    let mut fi: usize = 0;
    while fi < nf
        invariant
            fi <= nf,
            coeffs.len() == nf,
            pnames.len() == nf,
            pn == names_view(pnames@),
            term_parts(coeffs@, pn, 0, nf as nat, Seq::empty()) == term_parts(coeffs@, pn, fi as nat, nf as nat, names_view(parts@)),
        decreases nf - fi,
    {
        let c = coeffs[fi];
        if !c.is_zero() {
            let a = match c.checked_abs() {
                Some(a) => a,
                None => return None,
            };
            proof {
                lemma_abs_displayable(c);
            }
            let mut cs = coeff_text_exec(&a);
            push_str(&mut cs, pnames[fi].as_str());
            assert(pn[fi as int] == pnames@[fi as int]@);
            let piece = if c.is_negative() {
                let mut p = String::from_str("-");
                push_str(&mut p, cs.as_str());
                p
            } else if parts.len() == 0 {
                cs
            } else {
                let mut p = String::from_str("+ ");
                push_str(&mut p, cs.as_str());
                p
            };
            let ghost before = names_view(parts@);
            let ghost pv = piece@;
            parts.push(piece);
            assert(names_view(parts@) =~= before.push(pv));
        }
        fi = fi + 1;
    }
    Some(parts)
}

/// Appends the part of a non-zero constant (see [`constant_part`]).
fn constant_part_exec(constant: Rational, parts: &mut Vec<String>) -> (ok: bool)
    ensures
        match constant_part(constant, names_view(old(parts)@)) {
            None => !ok,
            Some(p) => ok && names_view(final(parts)@) == p,
        },
{
    if constant.is_zero() {
        return true;
    }
    let a = match constant.checked_abs() {
        Some(a) => a,
        None => return false,
    };
    proof {
        lemma_abs_displayable(constant);
    }
    let rs = if a.is_integer() {
        crate::text::i128_to_string(a.num)
    } else {
        a.to_display_string()
    };
    let piece = if constant.is_negative() {
        if parts.len() == 0 {
            let mut p = String::from_str("-");
            push_str(&mut p, rs.as_str());
            p
        } else {
            let mut p = String::from_str("- ");
            push_str(&mut p, rs.as_str());
            p
        }
    } else {
        if parts.len() == 0 {
            rs
        } else {
            let mut p = String::from_str("+ ");
            push_str(&mut p, rs.as_str());
            p
        }
    };
    let ghost before = names_view(parts@);
    let ghost pv = piece@;
    parts.push(piece);
    assert(names_view(parts@) =~= before.push(pv));
    true
}

/// The parts joined by single spaces, or "0" when there are none.
pub(crate) fn expr_text_exec(parts: &Vec<String>) -> (s: String)
    ensures
        s@ == expr_text(names_view(parts@)),
{
    let ghost pv = names_view(parts@);
    if parts.len() == 0 {
        return String::from_str("0");
    }
    let mut s = parts[0].clone();
    let mut i: usize = 1;
    assert(pv.subrange(0, 1) =~= seq![pv[0]]);
    while i < parts.len()
        invariant
            1 <= i <= parts.len(),
            pv == names_view(parts@),
            s@ == join_spaces(pv.subrange(0, i as int)),
        decreases parts.len() - i,
    {
        assert(pv.subrange(0, i + 1).drop_last() =~= pv.subrange(0, i as int));
        push_str(&mut s, " ");
        push_str(&mut s, parts[i].as_str());
        i = i + 1;
    }
    assert(pv.subrange(0, parts.len() as int) =~= pv);
    s
}

/// The expression of the pivot column `col` with pivot row `row`, and its text.
fn param_column(row: &Vec<Rational>, solved: &Vec<Option<(Vec<Rational>, Rational)>>, pnames: &Vec<String>, nf: usize, col: usize, m: usize) -> (r: Option<(Vec<Rational>, Rational, String)>)
    requires
        row.len() == m + 1,
        solved.len() == m,
        col < m,
        pnames.len() == nf,
        solved_ok(solved_view(solved@), nf as nat),
    ensures
        match accumulate(row@, solved_view(solved@), nf as nat, col as nat + 1, m as nat, zeros(nf as nat), row@[m as int]) {
            None => r is None,
            Some(ex) => match scale_expr(ex, row@[col as int], nf as nat) {
                None => r is None,
                Some(ex2) => match format_expr(ex2, names_view(pnames@), nf as nat) {
                    None => r is None,
                    Some(text) => r matches Some(x) && x.0@ == ex2.0 && x.1 == ex2.1 && x.2@ == text && x.0.len() == nf,
                },
            },
        },
{
    let (mut coeffs, mut constant) = match accumulate_exec(row, solved, nf, col + 1, m) {
        Some(x) => x,
        None => return None,
    };
    let pivot = row[col];
    if !pivot.is_one() {
        let ok = divide_all_exec(&mut coeffs, pivot, nf);
        if !ok {
            return None;
        }
        constant = match constant.checked_div(pivot) {
            Some(v) => v,
            None => return None,
        };
    }
    let mut parts = match term_parts_exec(&coeffs, pnames, nf) {
        Some(p) => p,
        None => return None,
    };
    let ok = constant_part_exec(constant, &mut parts);
    if !ok {
        return None;
    }
    let text = expr_text_exec(&parts);
    Some((coeffs, constant, text))
}

/// Every variable as an expression in the parameters of the free columns.
fn parametric_solution(data: &Vec<Vec<Rational>>, vars: &Vec<String>, bv: &Vec<Option<usize>>, free: &Vec<usize>, n: usize, m: usize) -> (r: Option<Vec<ParametricVar>>)
    requires
        rows_shaped(data_view(data@), n as nat, m as nat),
        vars.len() == m,
        bv.len() == m,
        forall|c: int| 0 <= c < m ==> (#[trigger] bv@[c] matches Some(x) ==> x < n),
        forall|i: int| 0 <= i < free.len() ==> #[trigger] free@[i] < m,
        nat_view(free@) == free_columns(opt_view(bv@), m as nat),
        free.len() > 0,
    ensures
        ({
            let nf = free.len() as nat;
            let pnames = param_names(nf);
            let fv = nat_view(free@);
            match param_loop(data_view(data@), names_view(vars@), opt_view(bv@), m as nat, nf, pnames, m as nat, seed(fv, nf, m as nat, nf), Seq::empty()) {
                None => r is None,
                Some(params) => r matches Some(v) && params_view(v@) == (params + free_entries(names_view(vars@), fv, pnames)).reverse(),
            }
        }),
{
    let nf = free.len();
    let ghost d = data_view(data@);
    let ghost vv = names_view(vars@);
    let ghost ob = opt_view(bv@);
    let ghost fv = nat_view(free@);
    let ghost pn = param_names(nf as nat);
    // parameter names
    let mut pnames: Vec<String> = Vec::new();
    let mut i: usize = 0;
    while i < nf
        invariant
            i <= nf,
            pn == param_names(nf as nat),
            names_view(pnames@) == pn.subrange(0, i as int),
        decreases nf - i,
    {
        let p = param_name_exec(nf, i);
        assert(pn[i as int] == param_name(nf as nat, i as nat));
        let ghost before = names_view(pnames@);
        let ghost pv = p@;
        pnames.push(p);
        assert(names_view(pnames@) =~= before.push(pv));
        i = i + 1;
        assert(names_view(pnames@) =~= pn.subrange(0, i as int));
    }
    assert(pn.subrange(0, nf as int) =~= pn);
    let mut solved = seed_exec(free, m);
    proof {
        lemma_seed_ok(fv, nf as nat, m as nat, nf as nat);
    }
    let mut params: Vec<ParametricVar> = Vec::new();
    assert(params_view(params@) =~= Seq::<(Seq<char>, Seq<char>)>::empty());
    let mut c = m;
    while c > 0
        invariant
            c <= m,
            d == data_view(data@),
            rows_shaped(d, n as nat, m as nat),
            vv == names_view(vars@),
            vars.len() == m,
            ob == opt_view(bv@),
            bv.len() == m,
            forall|k: int| 0 <= k < m ==> (#[trigger] bv@[k] matches Some(x) ==> x < n),
            names_view(pnames@) == pn,
            pn == param_names(nf as nat),
            nf == free.len(),
            fv == nat_view(free@),
            pnames.len() == nf,
            solved.len() == m,
            solved_ok(solved_view(solved@), nf as nat),
            param_loop(d, vv, ob, m as nat, nf as nat, pn, m as nat, seed(fv, nf as nat, m as nat, nf as nat), Seq::empty())
                == param_loop(d, vv, ob, m as nat, nf as nat, pn, c as nat, solved_view(solved@), params_view(params@)),
        decreases c,
    {
        c = c - 1;
        let col = c;
        match bv[col] {
            None => {},
            Some(r) => {
                assert(ob[col as int] == Some(r as nat));
                let row = &data[r];
                assert(row@ == d[r as int]);
                let ghost sv = solved_view(solved@);
                let ghost pv0 = params_view(params@);
                let (coeffs, constant, text) = match param_column(row, &solved, &pnames, nf, col, m) {
                    Some(x) => x,
                    None => {
                        proof {
                            let acc = accumulate(row@, sv, nf as nat, col as nat + 1, m as nat, zeros(nf as nat), row@[m as int]);
                            assert(param_loop(d, vv, ob, m as nat, nf as nat, pn, (col + 1) as nat, sv, pv0) == match acc {
                                None => None,
                                Some(ex) => match scale_expr(ex, row@[col as int], nf as nat) {
                                    None => None,
                                    Some(ex2) => match format_expr(ex2, pn, nf as nat) {
                                        None => None,
                                        Some(text) => param_loop(d, vv, ob, m as nat, nf as nat, pn, col as nat, sv.update(col as int, Some(ex2)), pv0.push((vv[col as int], text))),
                                    },
                                },
                            });
                        }
                        return None;
                    },
                };
                let ghost ex2 = (coeffs@, constant);
                let ghost before_s = solved_view(solved@);
                let ghost before_p = params_view(params@);
                let name = vars[col].clone();
                assert(name@ == vv[col as int]);
                let ghost tv = text@;
                params.push(ParametricVar { var: name, expr: text });
                solved.set(col, Some((coeffs, constant)));
                proof {
                    assert(solved_view(solved@) =~= before_s.update(col as int, Some(ex2)));
                    assert(params_view(params@) =~= before_p.push((vv[col as int], tv)));
                    assert forall|k: int| 0 <= k < solved_view(solved@).len() implies (#[trigger] solved_view(solved@)[k] matches Some(ex) ==> ex.0.len() == nf) by {
                        if k != col {
                            assert(solved_view(solved@)[k] == before_s[k]);
                        }
                    }
                }
            },
        }
    }
    // the free variables, then everything in reverse
    let ghost p0 = params_view(params@);
    let mut k: usize = 0;
    assert(p0 + free_entries(vv, fv, pn).subrange(0, 0) =~= p0);
    while k < nf
        invariant
            k <= nf,
            nf == free.len(),
            fv == nat_view(free@),
            forall|i: int| 0 <= i < free.len() ==> #[trigger] free@[i] < m,
            vars.len() == m,
            vv == names_view(vars@),
            names_view(pnames@) == pn,
            pnames.len() == nf,
            params_view(params@) == p0 + free_entries(vv, fv, pn).subrange(0, k as int),
            fv.len() == nf,
        decreases nf - k,
    {
        let ghost before = params_view(params@);
        assert(fv[k as int] == free@[k as int] as nat);
        assert(vv[fv[k as int] as int] == vars@[free@[k as int] as int]@);
        let name = vars[free[k]].clone();
        let pname = pnames[k].clone();
        assert(name@ == vv[fv[k as int] as int]);
        assert(pname@ == pn[k as int]);
        let ghost item = (name@, pname@);
        params.push(ParametricVar { var: name, expr: pname });
        assert(params_view(params@) =~= before.push(item));
        k = k + 1;
        assert(params_view(params@) =~= p0 + free_entries(vv, fv, pn).subrange(0, k as int));
    }
    assert(free_entries(vv, fv, pn).subrange(0, nf as int) =~= free_entries(vv, fv, pn));
    let ghost all = params_view(params@);
    let mut out: Vec<ParametricVar> = Vec::new();
    while params.len() > 0
        invariant
            all.len() == params.len() + out.len(),
            params_view(params@) == all.subrange(0, params.len() as int),
            params_view(out@) == all.subrange(params.len() as int, all.len() as int).reverse(),
        decreases params.len(),
    {
        let ghost before = params_view(out@);
        let ghost l = params.len();
        assert(params_view(params@)[l - 1] == all[l - 1]);
        assert(params_view(params@)[l - 1] == (params@[l - 1].var@, params@[l - 1].expr@));
        let item = params.pop().unwrap();
        let ghost iv = (item.var@, item.expr@);
        assert(iv == all[l - 1]);
        out.push(item);
        assert(params_view(out@) =~= before.push(iv));
        assert(all.subrange((l - 1) as int, all.len() as int).reverse() =~= all.subrange(l as int, all.len() as int).reverse().push(all[l - 1]));
        assert(params_view(out@) =~= all.subrange((l - 1) as int, all.len() as int).reverse());
        assert(params_view(params@) =~= all.subrange(0, (l - 1) as int));
    }
    assert(all.subrange(0, all.len() as int) =~= all);
    Some(out)
}

proof fn lemma_seed_ok(free: Seq<nat>, k: nat, m: nat, nf: nat)
    requires
        k <= free.len(),
        forall|i: int| 0 <= i < k ==> #[trigger] free[i] < m,
    ensures
        seed(free, k, m, nf).len() == m,
        solved_ok(seed(free, k, m, nf), nf),
    decreases k,
{
    if k > 0 {
        lemma_seed_ok(free, (k - 1) as nat, m, nf);
        let s = seed(free, (k - 1) as nat, m, nf);
        let t = s.update(free[k - 1] as int, Some((unit_vec(nf, (k - 1) as nat), zero_spec())));
        assert forall|c: int| 0 <= c < t.len() implies (#[trigger] t[c] matches Some(ex) ==> ex.0.len() == nf) by {
            if c != free[k - 1] {
                assert(t[c] == s[c]);
            }
        }
    } else {
        let s = seed(free, 0, m, nf);
        assert forall|c: int| 0 <= c < s.len() implies (#[trigger] s[c] matches Some(ex) ==> ex.0.len() == nf) by {
        }
    }
}

/// Reads the solution off the final matrix (see [`solution_spec`]); `None` where the
/// arithmetic overflows.
pub fn compute_solution(data: &Vec<Vec<Rational>>, vars: &Vec<String>, n: usize, m: usize) -> (r: Option<Solution>)
    requires
        rows_shaped(data_view(data@), n as nat, m as nat),
        vars.len() == m,
    ensures
        match solution_spec(data_view(data@), names_view(vars@), n as nat, m as nat) {
            None => r is None,
            Some(s) => r matches Some(x) && x@ == s,
        },
{
    let bv = find_basic(data, n, m);
    if has_inconsistent_row(data, n, m) {
        return Some(Solution::NoSolution);
    }
    let free = free_list(&bv);
    proof {
        lemma_free_columns(opt_view(bv@), m as nat);
    }
    let mut has_all_basic = true;
    let mut c: usize = 0;
    while c < m
        invariant
            c <= m,
            bv.len() == m,
            has_all_basic == forall|k: int| 0 <= k < c ==> #[trigger] bv@[k] is Some,
        decreases m - c,
    {
        if bv[c].is_none() {
            has_all_basic = false;
        }
        c = c + 1;
    }
    if free.len() == 0 && has_all_basic {
        match unique_solution(data, vars, &bv, n, m) {
            Some(sol) => return Some(Solution::Unique(sol)),
            None => return None,
        }
    }
    if free.len() == 0 {
        proof {
            assert(forall|k: int| 0 <= k < m ==> opt_view(bv@)[k] is Some);
            assert forall|k: int| 0 <= k < m implies #[trigger] bv@[k] is Some by {
                assert(opt_view(bv@)[k] is Some);
            }
        }
        return Some(Solution::Unique(Vec::new()));
    }
    match parametric_solution(data, vars, &bv, &free, n, m) {
        Some(p) => Some(Solution::Parametric(p)),
        None => None,
    }
}

} // verus!
