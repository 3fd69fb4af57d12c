use vstd::prelude::*;
use crate::gauss::{
    format_multiplier, gauss_spec, multiplier_text, try_gaussian_elimination, EliminationStep,
    OpType, RowOp, SpecRowOp, SpecStep, steps_view,
};
use crate::matrix::{
    data_view, equations_view, from_equations_spec, names_view, total_terms, AugmentedMatrix,
};
use crate::names::{assoc_keys, entries_view};
use crate::parser::{equation_spec, try_parse_equation, NormalizedEquation, SpecTerms};
use crate::rational::{wf, Rational};
use crate::solution::{
    expr_text, expr_text_exec, join_spaces, params_view, term_parts, term_parts_exec, Solution,
    SpecSolution,
};
use crate::text::push_str;
use crate::frac::fr;
use crate::reading::{
    law_term_parts_read_back, lemma_read_multiplier, nonzero_places, number_char, read_number,
    read_term_piece,
};

verus! {

/// A matrix entry as a raw numerator and denominator.
#[derive(Clone, Copy, Debug, PartialEq, Eq, Structural)]
pub struct CellVal {
    pub num: i128,
    pub den: i128,
}

impl From<Rational> for CellVal {
    fn from(r: Rational) -> (c: CellVal) {
        CellVal { num: r.num, den: r.den }
    }
}

impl vstd::std_specs::convert::FromSpecImpl<Rational> for CellVal {
    open spec fn obeys_from_spec() -> bool {
        true
    }

    open spec fn from_spec(r: Rational) -> CellVal {
        CellVal { num: r.num, den: r.den }
    }
}

/// The annotation of one row, with the operation named.
#[derive(Debug)]
pub struct RowOpInfo {
    pub op_type: String,
    pub arrow_src: Option<String>,
    pub arrow_dst: Option<String>,
}

/// One step: the matrix entries, the variable names and the row annotations.
#[derive(Debug)]
pub struct StepInfo {
    pub matrix: Vec<Vec<CellVal>>,
    pub vars: Vec<String>,
    pub row_ops: Vec<RowOpInfo>,
}

/// Everything the solver reports for a system of equations.
#[derive(Debug)]
pub struct SolveResponse {
    pub steps: Vec<StepInfo>,
    pub normalized_eqs: Vec<String>,
    pub solution_type: String,
    pub solution_vars: Vec<String>,
    pub solution_values: Vec<String>,
}

pub struct SpecOpInfo {
    pub op_type: Seq<char>,
    pub src: Option<Seq<char>>,
    pub dst: Option<Seq<char>>,
}

pub struct SpecStepInfo {
    pub matrix: Seq<Seq<CellVal>>,
    pub vars: Seq<Seq<char>>,
    pub row_ops: Seq<SpecOpInfo>,
}

pub struct SpecResponse {
    pub steps: Seq<SpecStepInfo>,
    pub normalized_eqs: Seq<Seq<char>>,
    pub solution_type: Seq<char>,
    pub solution_vars: Seq<Seq<char>>,
    pub solution_values: Seq<Seq<char>>,
}

pub open spec fn opt_text_view(o: Option<String>) -> Option<Seq<char>> {
    match o {
        Some(s) => Some(s@),
        None => None,
    }
}

impl View for RowOpInfo {
    type V = SpecOpInfo;

    open spec fn view(&self) -> SpecOpInfo {
        SpecOpInfo { op_type: self.op_type@, src: opt_text_view(self.arrow_src), dst: opt_text_view(self.arrow_dst) }
    }
}

pub open spec fn cells_view(d: Seq<Vec<CellVal>>) -> Seq<Seq<CellVal>> {
    d.map_values(|row: Vec<CellVal>| row@)
}

pub open spec fn op_infos_view(v: Seq<RowOpInfo>) -> Seq<SpecOpInfo> {
    v.map_values(|o: RowOpInfo| o@)
}

impl View for StepInfo {
    type V = SpecStepInfo;

    open spec fn view(&self) -> SpecStepInfo {
        SpecStepInfo {
            matrix: cells_view(self.matrix@),
            vars: names_view(self.vars@),
            row_ops: op_infos_view(self.row_ops@),
        }
    }
}

pub open spec fn step_infos_view(v: Seq<StepInfo>) -> Seq<SpecStepInfo> {
    v.map_values(|s: StepInfo| s@)
}

impl View for SolveResponse {
    type V = SpecResponse;

    open spec fn view(&self) -> SpecResponse {
        SpecResponse {
            steps: step_infos_view(self.steps@),
            normalized_eqs: names_view(self.normalized_eqs@),
            solution_type: self.solution_type@,
            solution_vars: names_view(self.solution_vars@),
            solution_values: names_view(self.solution_values@),
        }
    }
}

// ---------------------------------------------------------------------------
// Specification
// ---------------------------------------------------------------------------

pub open spec fn cell_of(r: Rational) -> CellVal {
    CellVal { num: r.num, den: r.den }
}

pub open spec fn op_name(t: OpType) -> Seq<char> {
    match t {
        OpType::NoChange => "NoChange"@,
        OpType::Eliminate => "Eliminate"@,
        OpType::Swap => "Swap"@,
    }
}

pub open spec fn op_info(o: SpecRowOp) -> SpecOpInfo {
    SpecOpInfo { op_type: op_name(o.op_type), src: o.src, dst: o.dst }
}

pub open spec fn cells_of(d: Seq<Seq<Rational>>) -> Seq<Seq<CellVal>> {
    d.map_values(|row: Seq<Rational>| row.map_values(|r: Rational| cell_of(r)))
}

/// What is reported of one step.
pub open spec fn step_info(s: SpecStep) -> SpecStepInfo {
    SpecStepInfo {
        matrix: cells_of(s.matrix.data),
        vars: s.matrix.vars,
        row_ops: s.row_ops.map_values(|o: SpecRowOp| op_info(o)),
    }
}

/// The coefficients of the terms.
pub open spec fn term_coeffs(t: SpecTerms) -> Seq<Rational> {
    t.map_values(|p: (Seq<char>, Rational)| p.1)
}

/// The display of a normalized equation: `2x - y + 1/2z = 3`, or `0 = c` without
/// variables; `None` where writing a number overflows.
pub open spec fn normalized_text(eq: (SpecTerms, Rational)) -> Option<Seq<char>> {
    match term_parts(term_coeffs(eq.0), assoc_keys(eq.0), 0, eq.0.len(), Seq::empty()) {
        None => None,
        Some(parts) => match multiplier_text(eq.1) {
            None => None,
            Some(cs) => Some(
                if parts.len() == 0 {
                    "0 = "@ + cs
                } else {
                    join_spaces(parts) + " = "@ + cs
                },
            ),
        },
    }
}

pub open spec fn msg_no_equations() -> Seq<char> {
    "Bitte geben Sie mindestens eine Gleichung ein."@
}

pub open spec fn msg_parse_failed(line: Seq<char>, e: Seq<char>) -> Seq<char> {
    "Fehler beim Parsen von '"@ + line + "': "@ + e
}

/// Parses the lines in order, with the display of each equation; the first line that
/// is not an equation gives its error.
pub open spec fn parse_lines(lines: Seq<Seq<char>>) -> Option<Result<(Seq<(SpecTerms, Rational)>, Seq<Seq<char>>), Seq<char>>>
    decreases lines.len(),
{
    if lines.len() == 0 {
        Some(Ok((Seq::empty(), Seq::empty())))
    } else {
        match parse_lines(lines.drop_last()) {
            None => None,
            Some(Err(e)) => Some(Err(e)),
            Some(Ok((eqs, texts))) => match equation_spec(lines.last()) {
                None => None,
                Some(Err(e)) => Some(Err(msg_parse_failed(lines.last(), e))),
                Some(Ok(eq)) => match normalized_text(eq) {
                    None => None,
                    Some(t) => Some(Ok((eqs.push(eq), texts.push(t)))),
                },
            },
        }
    }
}

/// The solution's kind, variables and value texts.
pub open spec fn solution_fields(sol: SpecSolution) -> Option<(Seq<char>, Seq<Seq<char>>, Seq<Seq<char>>)> {
    match sol {
        SpecSolution::Unique(s) => match value_texts(s) {
            None => None,
            Some(vals) => Some(("unique"@, assoc_keys(s), vals)),
        },
        SpecSolution::Parametric(p) => Some(
            (
                "parametric"@,
                p.map_values(|x: (Seq<char>, Seq<char>)| x.0),
                p.map_values(|x: (Seq<char>, Seq<char>)| x.1),
            ),
        ),
        SpecSolution::NoSolution => Some(
            ("no_solution"@, seq!["System"@], seq!["Keine Lösung (inkonsistent)"@]),
        ),
    }
}

/// The text of each value: the integer, or the fraction.
pub open spec fn value_texts(s: Seq<(Seq<char>, Rational)>) -> Option<Seq<Seq<char>>>
    decreases s.len(),
{
    if s.len() == 0 {
        Some(Seq::empty())
    } else {
        match value_texts(s.drop_last()) {
            None => None,
            Some(v) => match multiplier_text(s.last().1) {
                None => None,
                Some(t) => Some(v.push(t)),
            },
        }
    }
}

/// What the solver answers for a list of equation lines: every line parsed and
/// normalized, the augmented matrix built, Gaussian elimination run step by step and
/// the solution read off. `Some(Err(message))` for no lines or a line that is not an
/// equation; `None` where the arithmetic overflows `i128` (or the number of terms
/// reaches `usize::MAX`).
pub open spec fn solve_spec(lines: Seq<Seq<char>>) -> Option<Result<SpecResponse, Seq<char>>> {
    if lines.len() == 0 {
        Some(Err(msg_no_equations()))
    } else {
        match parse_lines(lines) {
            None => None,
            Some(Err(e)) => Some(Err(e)),
            Some(Ok((eqs, texts))) => if total_terms(eqs) >= usize::MAX {
                None
            } else {
                match gauss_spec(from_equations_spec(eqs)) {
                    None => None,
                    Some((steps, sol)) => match solution_fields(sol) {
                        None => None,
                        Some((ty, vs, vals)) => Some(
                            Ok(
                                SpecResponse {
                                    steps: steps.map_values(|s: SpecStep| step_info(s)),
                                    normalized_eqs: texts,
                                    solution_type: ty,
                                    solution_vars: vs,
                                    solution_values: vals,
                                },
                            ),
                        ),
                    },
                }
            },
        }
    }
}


// ---------------------------------------------------------------------------
// Executable
// ---------------------------------------------------------------------------

/// The display of a normalized equation, or `None` where writing a number overflows.
pub fn try_format_normalized_eq(eq: &NormalizedEquation) -> (r: Option<String>)
    ensures
        match normalized_text(eq@) {
            None => r is None,
            Some(t) => r matches Some(s) && s@ == t,
        },
{
    let ghost tv = entries_view(eq.terms@);
    let mut coeffs: Vec<Rational> = Vec::new();
    let mut names: Vec<String> = Vec::new();
    let mut i: usize = 0;
    while i < eq.terms.len()
        invariant
            i <= eq.terms.len(),
            tv == entries_view(eq.terms@),
            coeffs@ == term_coeffs(tv).subrange(0, i as int),
            names_view(names@) == assoc_keys(tv).subrange(0, i as int),
        decreases eq.terms.len() - i,
    {
        let ghost bn = names_view(names@);
        coeffs.push(eq.terms[i].1);
        let nm = eq.terms[i].0.clone();
        let ghost nv = nm@;
        names.push(nm);
        assert(names_view(names@) =~= bn.push(nv));
        i = i + 1;
        assert(coeffs@ =~= term_coeffs(tv).subrange(0, i as int));
        assert(names_view(names@) =~= assoc_keys(tv).subrange(0, i as int));
    }
    assert(term_coeffs(tv).subrange(0, tv.len() as int) =~= term_coeffs(tv));
    assert(assoc_keys(tv).subrange(0, tv.len() as int) =~= assoc_keys(tv));
    let parts = match term_parts_exec(&coeffs, &names, eq.terms.len()) {
        Some(p) => p,
        None => return None,
    };
    let c = eq.constant;
    if !(c.den == 1 || c.num != i128::MIN) {
        return None;
    }
    let cs = format_multiplier(&c);
    if parts.len() == 0 {
        let mut s = String::from_str("0 = ");
        push_str(&mut s, cs.as_str());
        Some(s)
    } else {
        let mut s = expr_text_exec(&parts);
        push_str(&mut s, " = ");
        push_str(&mut s, cs.as_str());
        Some(s)
    }
}

/// The display of a normalized equation (see [`normalized_text`]).
pub fn format_normalized_eq(eq: &NormalizedEquation) -> (s: String)
    requires
        normalized_text(eq@) is Some,
    ensures
        normalized_text(eq@) == Some(s@),
{
    match try_format_normalized_eq(eq) {
        Some(s) => s,
        None => String::new(),
    }
}

fn cell_row(row: &Vec<Rational>) -> (r: Vec<CellVal>)
    ensures
        r@ == row@.map_values(|x: Rational| cell_of(x)),
{
    let mut r: Vec<CellVal> = Vec::new();
    let mut i: usize = 0;
    while i < row.len()
        invariant
            i <= row.len(),
            r@ == row@.map_values(|x: Rational| cell_of(x)).subrange(0, i as int),
        decreases row.len() - i,
    {
        r.push(CellVal::from(row[i]));
        i = i + 1;
        assert(r@ =~= row@.map_values(|x: Rational| cell_of(x)).subrange(0, i as int));
    }
    assert(row@.map_values(|x: Rational| cell_of(x)).subrange(0, row.len() as int) =~= row@.map_values(|x: Rational| cell_of(x)));
    r
}

fn op_type_name(t: OpType) -> (s: String)
    ensures
        s@ == op_name(t),
{
    match t {
        OpType::NoChange => String::from_str("NoChange"),
        OpType::Eliminate => String::from_str("Eliminate"),
        OpType::Swap => String::from_str("Swap"),
    }
}

/// A copy of an optional text.
pub(crate) fn clone_opt(o: &Option<String>) -> (r: Option<String>)
    ensures
        opt_text_view(r) == opt_text_view(*o),
{
    match o {
        Some(s) => Some(s.clone()),
        None => None,
    }
}

/// What is reported of one step (see [`step_info`]).
fn step_to_info(step: &EliminationStep) -> (r: StepInfo)
    ensures
        r@ == step_info(step@),
{
    let ghost sv = step@;
    let mut matrix: Vec<Vec<CellVal>> = Vec::new();
    let mut i: usize = 0;
    while i < step.matrix.data.len()
        invariant
            i <= step.matrix.data.len(),
            sv == step@,
            cells_view(matrix@) == cells_of(sv.matrix.data).subrange(0, i as int),
        decreases step.matrix.data.len() - i,
    {
        let ghost before = cells_view(matrix@);
        let row = cell_row(&step.matrix.data[i]);
        let ghost rv = row@;
        matrix.push(row);
        assert(cells_view(matrix@) =~= before.push(rv));
        i = i + 1;
        assert(cells_view(matrix@) =~= cells_of(sv.matrix.data).subrange(0, i as int));
    }
    assert(cells_of(sv.matrix.data).subrange(0, step.matrix.data.len() as int) =~= cells_of(sv.matrix.data));
    let vars = crate::gauss::copy_names(&step.matrix.vars);
    let mut ops: Vec<RowOpInfo> = Vec::new();
    let ghost want = sv.row_ops.map_values(|o: SpecRowOp| op_info(o));
    let mut k: usize = 0;
    while k < step.row_ops.len()
        invariant
            k <= step.row_ops.len(),
            sv == step@,
            want == sv.row_ops.map_values(|o: SpecRowOp| op_info(o)),
            op_infos_view(ops@) == want.subrange(0, k as int),
        decreases step.row_ops.len() - k,
    {
        let op = &step.row_ops[k];
        let info = RowOpInfo {
            op_type: op_type_name(op.op_type),
            arrow_src: clone_opt(&op.arrow_src),
            arrow_dst: clone_opt(&op.arrow_dst),
        };
        let ghost before = op_infos_view(ops@);
        let ghost iv = info@;
        assert(iv == op_info(sv.row_ops[k as int]));
        ops.push(info);
        assert(op_infos_view(ops@) =~= before.push(iv));
        k = k + 1;
        assert(op_infos_view(ops@) =~= want.subrange(0, k as int));
    }
    assert(want.subrange(0, step.row_ops.len() as int) =~= want);
    StepInfo { matrix, vars, row_ops: ops }
}

/// The number of terms over all equations, or `None` where it reaches `usize::MAX`.
fn count_terms(eqs: &Vec<NormalizedEquation>) -> (r: Option<usize>)
    ensures
        match r {
            Some(t) => t == total_terms(equations_view(eqs@)) && t < usize::MAX,
            None => total_terms(equations_view(eqs@)) >= usize::MAX,
        },
{
    let ghost ev = equations_view(eqs@);
    let mut total: usize = 0;
    let mut i: usize = 0;
    while i < eqs.len()
        invariant
            i <= eqs.len(),
            ev == equations_view(eqs@),
            total == total_terms(ev.subrange(0, i as int)),
            total < usize::MAX,
        decreases eqs.len() - i,
    {
        assert(ev.subrange(0, i + 1).drop_last() =~= ev.subrange(0, i as int));
        assert(ev[i as int].0.len() == eqs@[i as int].terms.len());
        let t = eqs[i].terms.len();
        if total >= usize::MAX - t {
            proof {
                lemma_total_terms_grows(ev, i as int + 1);
            }
            return None;
        }
        total = total + t;
        i = i + 1;
    }
    assert(ev.subrange(0, eqs.len() as int) =~= ev);
    Some(total)
}

proof fn lemma_total_terms_grows(eqs: Seq<(SpecTerms, Rational)>, k: int)
    requires
        0 <= k <= eqs.len(),
    ensures
        total_terms(eqs.subrange(0, k)) <= total_terms(eqs),
    decreases eqs.len() - k,
{
    if k < eqs.len() {
        lemma_total_terms_grows(eqs, k + 1);
        assert(eqs.subrange(0, k + 1).drop_last() =~= eqs.subrange(0, k));
    } else {
        assert(eqs.subrange(0, k) =~= eqs);
    }
}

/// The texts of the values of a unique solution.
fn value_strings(sol: &Vec<(String, Rational)>) -> (r: Option<(Vec<String>, Vec<String>)>)
    ensures
        match value_texts(entries_view(sol@)) {
            None => r is None,
            Some(vals) => r matches Some(x) && names_view(x.0@) == assoc_keys(entries_view(sol@)) && names_view(x.1@) == vals,
        },
{
    let ghost sv = entries_view(sol@);
    let mut vars: Vec<String> = Vec::new();
    let mut vals: Vec<String> = Vec::new();
    let mut i: usize = 0;
    while i < sol.len()
        invariant
            i <= sol.len(),
            sv == entries_view(sol@),
            names_view(vars@) == assoc_keys(sv).subrange(0, i as int),
            value_texts(sv.subrange(0, i as int)) == Some(names_view(vals@)),
        decreases sol.len() - i,
    {
        assert(sv.subrange(0, i + 1).drop_last() =~= sv.subrange(0, i as int));
        assert(sv[i as int] == (sol@[i as int].0@, sol@[i as int].1));
        let v = sol[i].1;
        if !(v.den == 1 || v.num != i128::MIN) {
            proof {
                lemma_value_texts_none(sv, i as int + 1);
            }
            return None;
        }
        let t = format_multiplier(&v);
        let ghost b1 = names_view(vals@);
        let ghost tv = t@;
        vals.push(t);
        assert(names_view(vals@) =~= b1.push(tv));
        let nm = sol[i].0.clone();
        let ghost b2 = names_view(vars@);
        let ghost nv = nm@;
        vars.push(nm);
        assert(names_view(vars@) =~= b2.push(nv));
        i = i + 1;
        assert(names_view(vars@) =~= assoc_keys(sv).subrange(0, i as int));
    }
    assert(sv.subrange(0, sol.len() as int) =~= sv);
    assert(assoc_keys(sv).subrange(0, sol.len() as int) =~= assoc_keys(sv));
    Some((vars, vals))
}

proof fn lemma_value_texts_none(s: Seq<(Seq<char>, Rational)>, k: int)
    requires
        0 <= k <= s.len(),
        value_texts(s.subrange(0, k)) is None,
    ensures
        value_texts(s) is None,
    decreases s.len() - k,
{
    if k < s.len() {
        assert(s.subrange(0, k + 1).drop_last() =~= s.subrange(0, k));
        lemma_value_texts_none(s, k + 1);
    } else {
        assert(s.subrange(0, k) =~= s);
    }
}

/// Parses the lines in order (see [`parse_lines`]).
fn parse_all(equations: &Vec<String>) -> (r: Option<Result<(Vec<NormalizedEquation>, Vec<String>), String>>)
    ensures
        match parse_lines(names_view(equations@)) {
            None => r is None,
            Some(Err(e)) => r matches Some(Err(m)) && m@ == e,
            Some(Ok((eqs, texts))) => r matches Some(Ok(x)) && equations_view(x.0@) == eqs && names_view(x.1@) == texts,
        },
{
    let ghost lines = names_view(equations@);
    let mut eqs: Vec<NormalizedEquation> = Vec::new();
    let mut norm_strings: Vec<String> = Vec::new();
    let mut i: usize = 0;
    assert(lines.subrange(0, 0) =~= Seq::<Seq<char>>::empty());
    assert(equations_view(eqs@) =~= Seq::<(SpecTerms, Rational)>::empty());
    assert(names_view(norm_strings@) =~= Seq::<Seq<char>>::empty());
    while i < equations.len()
        invariant
            i <= equations.len(),
            lines == names_view(equations@),
            parse_lines(lines.subrange(0, i as int)) == Some(
                Ok::<(Seq<(SpecTerms, Rational)>, Seq<Seq<char>>), Seq<char>>(
                    (equations_view(eqs@), names_view(norm_strings@)),
                ),
            ),
        decreases equations.len() - i,
    {
        let line = &equations[i];
        assert(lines.subrange(0, i + 1).drop_last() =~= lines.subrange(0, i as int));
        assert(lines.subrange(0, i + 1).last() == line@);
        match try_parse_equation(line.as_str()) {
            None => {
                proof {
                    lemma_parse_lines_stops(lines, i as int + 1);
                }
                return None;
            },
            Some(Err(e)) => {
                let mut msg = String::from_str("Fehler beim Parsen von '");
                push_str(&mut msg, line.as_str());
                push_str(&mut msg, "': ");
                push_str(&mut msg, e.as_str());
                proof {
                    lemma_parse_lines_stops(lines, i as int + 1);
                }
                return Some(Err(msg));
            },
            Some(Ok(eq)) => {
                let text = match try_format_normalized_eq(&eq) {
                    Some(t) => t,
                    None => {
                        proof {
                            lemma_parse_lines_stops(lines, i as int + 1);
                        }
                        return None;
                    },
                };
                let ghost b1 = equations_view(eqs@);
                let ghost b2 = names_view(norm_strings@);
                let ghost ev = eq@;
                let ghost tv = text@;
                norm_strings.push(text);
                eqs.push(eq);
                assert(equations_view(eqs@) =~= b1.push(ev));
                assert(names_view(norm_strings@) =~= b2.push(tv));
            },
        }
        i = i + 1;
    }
    assert(lines.subrange(0, equations.len() as int) =~= lines);
    Some(Ok((eqs, norm_strings)))
}

/// What is reported of each step.
fn step_infos_of(steps: &Vec<EliminationStep>) -> (r: Vec<StepInfo>)
    ensures
        step_infos_view(r@) == steps_view(steps@).map_values(|s: SpecStep| step_info(s)),
{
    let ghost spec_steps = steps_view(steps@);
    let mut step_infos: Vec<StepInfo> = Vec::new();
    let mut k: usize = 0;
    while k < steps.len()
        invariant
            k <= steps.len(),
            spec_steps == steps_view(steps@),
            step_infos_view(step_infos@) == spec_steps.map_values(|s: SpecStep| step_info(s)).subrange(0, k as int),
        decreases steps.len() - k,
    {
        let info = step_to_info(&steps[k]);
        let ghost before = step_infos_view(step_infos@);
        let ghost iv = info@;
        step_infos.push(info);
        assert(step_infos_view(step_infos@) =~= before.push(iv));
        k = k + 1;
        assert(step_infos_view(step_infos@) =~= spec_steps.map_values(|s: SpecStep| step_info(s)).subrange(0, k as int));
    }
    assert(spec_steps.map_values(|s: SpecStep| step_info(s)).subrange(0, steps.len() as int) =~= spec_steps.map_values(|s: SpecStep| step_info(s)));
    step_infos
}

/// The solution's kind, variables and value texts (see [`solution_fields`]).
fn solution_parts(solution: &Solution) -> (r: Option<(String, Vec<String>, Vec<String>)>)
    ensures
        match solution_fields(solution@) {
            None => r is None,
            Some((ty, vs, vals)) => r matches Some(x) && x.0@ == ty && names_view(x.1@) == vs && names_view(x.2@) == vals,
        },
{
    match solution {
        Solution::Unique(sol) => {
            let (sol_vars, sol_values) = match value_strings(sol) {
                Some(x) => x,
                None => return None,
            };
            Some((String::from_str("unique"), sol_vars, sol_values))
        },
        Solution::Parametric(params) => {
            let ghost pv = params_view(params@);
            let mut sol_vars: Vec<String> = Vec::new();
            let mut sol_values: Vec<String> = Vec::new();
            let mut j: usize = 0;
            while j < params.len()
                invariant
                    j <= params.len(),
                    pv == params_view(params@),
                    names_view(sol_vars@) == pv.map_values(|x: (Seq<char>, Seq<char>)| x.0).subrange(0, j as int),
                    names_view(sol_values@) == pv.map_values(|x: (Seq<char>, Seq<char>)| x.1).subrange(0, j as int),
                decreases params.len() - j,
            {
                let a = params[j].var.clone();
                let b = params[j].expr.clone();
                let ghost b1 = names_view(sol_vars@);
                let ghost b2 = names_view(sol_values@);
                let ghost av = a@;
                let ghost bv = b@;
                sol_vars.push(a);
                sol_values.push(b);
                assert(names_view(sol_vars@) =~= b1.push(av));
                assert(names_view(sol_values@) =~= b2.push(bv));
                j = j + 1;
                assert(names_view(sol_vars@) =~= pv.map_values(|x: (Seq<char>, Seq<char>)| x.0).subrange(0, j as int));
                assert(names_view(sol_values@) =~= pv.map_values(|x: (Seq<char>, Seq<char>)| x.1).subrange(0, j as int));
            }
            assert(pv.map_values(|x: (Seq<char>, Seq<char>)| x.0).subrange(0, params.len() as int) =~= pv.map_values(|x: (Seq<char>, Seq<char>)| x.0));
            assert(pv.map_values(|x: (Seq<char>, Seq<char>)| x.1).subrange(0, params.len() as int) =~= pv.map_values(|x: (Seq<char>, Seq<char>)| x.1));
            Some((String::from_str("parametric"), sol_vars, sol_values))
        },
        Solution::NoSolution => {
            let mut sol_vars: Vec<String> = Vec::new();
            sol_vars.push(String::from_str("System"));
            let mut sol_values: Vec<String> = Vec::new();
            sol_values.push(String::from_str("Keine Lösung (inkonsistent)"));
            assert(names_view(sol_vars@) =~= seq!["System"@]);
            assert(names_view(sol_values@) =~= seq!["Keine Lösung (inkonsistent)"@]);
            Some((String::from_str("no_solution"), sol_vars, sol_values))
        },
    }
}

/// Solves a system given as equation lines (see [`solve_spec`]); `None` where the
/// arithmetic overflows.
pub fn try_solve(equations: &Vec<String>) -> (r: Option<Result<SolveResponse, String>>)
    ensures
        match solve_spec(names_view(equations@)) {
            None => r is None,
            Some(Err(e)) => r matches Some(Err(m)) && m@ == e,
            Some(Ok(resp)) => r matches Some(Ok(x)) && x@ == resp,
        },
{
    if equations.len() == 0 {
        return Some(Err(String::from_str("Bitte geben Sie mindestens eine Gleichung ein.")));
    }
    let (eqs, norm_strings) = match parse_all(equations) {
        None => return None,
        Some(Err(e)) => return Some(Err(e)),
        Some(Ok(x)) => x,
    };
    match count_terms(&eqs) {
        None => return None,
        Some(_) => {},
    }
    let (matrix, _all_vars) = AugmentedMatrix::from_equations(&eqs);
    let (steps, solution) = match try_gaussian_elimination(&matrix) {
        Some(x) => x,
        None => return None,
    };
    let step_infos = step_infos_of(&steps);
    let (ty, sol_vars, sol_values) = match solution_parts(&solution) {
        Some(x) => x,
        None => return None,
    };
    Some(Ok(SolveResponse {
        steps: step_infos,
        normalized_eqs: norm_strings,
        solution_type: ty,
        solution_vars: sol_vars,
        solution_values: sol_values,
    }))
}

proof fn lemma_parse_lines_stops(lines: Seq<Seq<char>>, k: int)
    requires
        0 <= k <= lines.len(),
        !(parse_lines(lines.subrange(0, k)) matches Some(Ok(_))),
    ensures
        parse_lines(lines) == parse_lines(lines.subrange(0, k)),
    decreases lines.len() - k,
{
    if k < lines.len() {
        assert(lines.subrange(0, k + 1).drop_last() =~= lines.subrange(0, k));
        lemma_parse_lines_stops(lines, k + 1);
    } else {
        assert(lines.subrange(0, k) =~= lines);
    }
}

/// Solves a system given as equation lines (see [`solve_spec`]).
pub fn solve(equations: Vec<String>) -> (r: Result<SolveResponse, String>)
    requires
        solve_spec(names_view(equations@)) is Some,
    ensures
        match solve_spec(names_view(equations@)) {
            Some(Err(e)) => r matches Err(m) && m@ == e,
            Some(Ok(resp)) => r matches Ok(x) && x@ == resp,
            None => false,
        },
{
    match try_solve(&equations) {
        Some(r) => r,
        None => Err(String::new()),
    }
}

/// The text of a normalized equation ends with ` = ` and the equation's constant,
/// written so that it reads back as the constant's fraction (an integer, or `n/d`),
/// with no other '=' after it.
pub proof fn law_normalized_text_constant(eq: (SpecTerms, Rational))
    ensures
        normalized_text(eq) matches Some(t) ==> exists|k: int|
            0 <= k && k + 3 <= t.len() && #[trigger] t.subrange(k, k + 3) == " = "@ && read_number(
                t.subrange(k + 3, t.len() as int),
            ) == Some(fr(eq.1)) && forall|i: int| k + 3 <= i < t.len() ==> t[i] != '=',
{
    match normalized_text(eq) {
        Some(t) => {
            reveal_strlit(" = ");
            reveal_strlit("0 = ");
            reveal_strlit("0");
            let parts = term_parts(term_coeffs(eq.0), assoc_keys(eq.0), 0, eq.0.len(), Seq::empty())->Some_0;
            let cs = multiplier_text(eq.1)->Some_0;
            let lhs = if parts.len() == 0 {
                "0"@
            } else {
                join_spaces(parts)
            };
            assert(t =~= lhs + " = "@ + cs);
            let k = lhs.len() as int;
            assert(t.subrange(k, k + 3) =~= " = "@);
            assert(t.subrange(k + 3, t.len() as int) =~= cs);
            lemma_read_multiplier(eq.1);
            assert forall|i: int| k + 3 <= i < t.len() implies t[i] != '=' by {
                assert(t[i] == cs[i - k - 3]);
                assert(number_char(cs[i - k - 3]));
            }
        },
        None => {},
    }
}

/// The left side of a normalized equation's text reads back as its terms: the text
/// is `lhs = c`, where `lhs` is "0" without terms and otherwise made of one piece
/// per term with a non-zero coefficient, in order, each reading back with the term's
/// name as its coefficient (sign included).
pub proof fn law_normalized_text_terms(eq: (SpecTerms, Rational))
    requires
        forall|i: int| 0 <= i < eq.0.len() ==> wf(#[trigger] eq.0[i].1),
    ensures
        normalized_text(eq) matches Some(t) ==> exists|ps: Seq<Seq<char>>, ct: Seq<char>|
            #[trigger] (expr_text(ps) + " = "@ + ct) == t && {
                let nz = nonzero_places(term_coeffs(eq.0), 0, eq.0.len());
                &&& ps.len() == nz.len()
                &&& forall|j: int|
                    0 <= j < nz.len() ==> read_term_piece(#[trigger] ps[j], eq.0[nz[j] as int].0) == Some(
                        fr(eq.0[nz[j] as int].1),
                    )
            },
{
    if normalized_text(eq) is Some {
        reveal_strlit(" = ");
        reveal_strlit("0 = ");
        reveal_strlit("0");
        let cf = term_coeffs(eq.0);
        let nm = assoc_keys(eq.0);
        assert forall|i: int| 0 <= i < eq.0.len() implies wf(#[trigger] cf[i]) by {
            assert(cf[i] == eq.0[i].1);
        }
        let empty = Seq::<Seq<char>>::empty();
        law_term_parts_read_back(cf, nm, 0, eq.0.len(), empty);
        let ps = term_parts(cf, nm, 0, eq.0.len(), empty)->Some_0;
        let cs = multiplier_text(eq.1)->Some_0;
        let t = normalized_text(eq)->Some_0;
        let nz = nonzero_places(cf, 0, eq.0.len());
        assert(expr_text(ps) + " = "@ + cs =~= t);
        assert forall|j: int| 0 <= j < nz.len() implies read_term_piece(#[trigger] ps[j], eq.0[nz[j] as int].0) == Some(
            fr(eq.0[nz[j] as int].1),
        ) by {
            assert(ps[0 + j] == ps[j]);
            assert(nm[nz[j] as int] == eq.0[nz[j] as int].0);
            assert(cf[nz[j] as int] == eq.0[nz[j] as int].1);
        }
        assert(ps.len() == nz.len());
    }
}

} // verus!
