use vstd::prelude::*;
use crate::frac::{feq, fnz, fr, fzero, Frac};
use crate::gauss::gauss_spec;
use crate::matrix::{coeff_of, from_equations_spec, law_matrix_columns, shaped, total_terms, variable_numbers, number_names};
use crate::names::{assoc_get, assoc_keys, assoc_put, lemma_assoc_get_put, sorted_keys};
use crate::parser::{equation_spec, law_normalized_equation_shape, SpecTerms};
use crate::rational::{Rational, zero_spec};
use crate::solution::{SpecSolution};
use crate::solver::{parse_lines, solve_spec, value_texts};
use crate::soundness::{
    equation_reduced, law_built_matrix_is_valid, law_no_solution_is_exact, law_unique_solution_solves,
    lin, satisfies, solution_vector, frs, vec_nz,
};

verus! {

// ---------------------------------------------------------------------------
// Equations read by name
// ---------------------------------------------------------------------------

/// The value a solution gives the name `v` (zero where it gives none).
pub open spec fn value_of(sol: Seq<(Seq<char>, Rational)>, v: Seq<char>) -> Frac {
    match assoc_get(sol, v) {
        Some(x) => fr(x),
        None => fzero(),
    }
}

/// The equation holds when each of the `names` has the value `val(name)`: the
/// coefficient of each name (zero where the equation has none) times its value,
/// summed over the names, equals the constant.
pub open spec fn holds_by_name(eq: (SpecTerms, Rational), names: Seq<Seq<char>>, val: spec_fn(Seq<char>) -> Frac) -> bool {
    feq(
        lin(
            Seq::new(names.len(), |k: int| coeff_of(eq.0, names[k])),
            Seq::new(names.len(), |k: int| val(names[k])),
            0,
            names.len(),
        ),
        fr(eq.1),
    )
}

proof fn lemma_lin_rows(a: Seq<Rational>, b: Seq<Rational>, x: Seq<Frac>, j: nat, k: nat)
    requires
        forall|t: int| j <= t < k ==> #[trigger] a[t] == b[t],
    ensures
        lin(a, x, j, k) == lin(b, x, j, k),
    decreases k - j,
{
    if j < k {
        assert(a[j as int] == b[j as int]);
        lemma_lin_rows(a, b, x, j + 1, k);
    }
}

/// The lines parse one by one into the equations.
proof fn lemma_parse_lines_each(lines: Seq<Seq<char>>)
    ensures
        parse_lines(lines) matches Some(Ok((eqs, texts))) ==> {
            &&& eqs.len() == lines.len()
            &&& forall|i: int| 0 <= i < lines.len() ==> equation_spec(#[trigger] lines[i]) == Some(Ok::<_, Seq<char>>(eqs[i]))
        },
    decreases lines.len(),
{
    if lines.len() > 0 {
        let l0 = lines.drop_last();
        lemma_parse_lines_each(l0);
        match parse_lines(lines) {
            Some(Ok((eqs, texts))) => {
                let e0 = match parse_lines(l0) {
                    Some(Ok((e, t))) => e,
                    _ => Seq::empty(),
                };
                assert forall|i: int| 0 <= i < lines.len() implies equation_spec(#[trigger] lines[i]) == Some(Ok::<_, Seq<char>>(eqs[i])) by {
                    if i < lines.len() - 1 {
                        assert(l0[i] == lines[i]);
                        assert(eqs[i] == e0[i]);
                    }
                }
            },
            _ => {},
        }
    }
}

proof fn lemma_get_in_keys<V>(s: Seq<(Seq<char>, V)>, k: Seq<char>)
    ensures
        assoc_get(s, k) is Some ==> assoc_keys(s).contains(k),
    decreases s.len(),
{
    if s.len() > 0 {
        if s[0].0 == k {
            assert(assoc_keys(s)[0] == k);
        } else {
            lemma_get_in_keys(s.drop_first(), k);
            if assoc_get(s, k) is Some {
                let j = choose|j: int| 0 <= j < assoc_keys(s.drop_first()).len() && assoc_keys(s.drop_first())[j] == k;
                assert(assoc_keys(s)[j + 1] == k);
            }
        }
    }
}

proof fn lemma_number_names_has(set: Seq<(Seq<char>, usize)>, terms: SpecTerms)
    ensures
        forall|t: int| 0 <= t < terms.len() ==> assoc_get(number_names(set, terms), (#[trigger] terms[t]).0) is Some,
        forall|k: Seq<char>| assoc_get(set, k) is Some ==> #[trigger] assoc_get(number_names(set, terms), k) is Some,
    decreases terms.len(),
{
    if terms.len() > 0 {
        let t0 = terms.drop_last();
        lemma_number_names_has(set, t0);
        let s = number_names(set, t0);
        let v = terms.last().0;
        assert forall|k: Seq<char>| assoc_get(s, k) is Some implies #[trigger] assoc_get(number_names(set, terms), k) is Some by {
            lemma_assoc_get_put(s, v, s.len() as usize, k);
        }
        lemma_assoc_get_put(s, v, s.len() as usize, v);
        assert forall|t: int| 0 <= t < terms.len() implies assoc_get(number_names(set, terms), (#[trigger] terms[t]).0) is Some by {
            if t < terms.len() - 1 {
                assert(t0[t] == terms[t]);
                assert(assoc_get(s, terms[t].0) is Some);
            }
        }
    }
}

/// Every name of every equation is among the matrix's names.
proof fn lemma_variable_numbers_has(eqs: Seq<(SpecTerms, Rational)>)
    ensures
        forall|i: int, t: int|
            0 <= i < eqs.len() && 0 <= t < eqs[i].0.len() ==> assoc_get(variable_numbers(eqs), (#[trigger] eqs[i].0[t]).0) is Some,
    decreases eqs.len(),
{
    if eqs.len() > 0 {
        let e0 = eqs.drop_last();
        lemma_variable_numbers_has(e0);
        lemma_number_names_has(variable_numbers(e0), eqs.last().0);
        assert forall|i: int, t: int| 0 <= i < eqs.len() && 0 <= t < eqs[i].0.len() implies assoc_get(variable_numbers(eqs), (#[trigger] eqs[i].0[t]).0) is Some by {
            if i < eqs.len() - 1 {
                assert(e0[i] == eqs[i]);
                assert(assoc_get(variable_numbers(e0), e0[i].0[t].0) is Some);
            } else {
                assert(eqs[i].0[t] == eqs.last().0[t]);
            }
        }
    }
}

/// What parsing the lines gives, when it succeeds: one equation per line, as the
/// parser reads that line, in lowest terms with sorted names; and the matrix has a
/// column for every name of every equation, holding its coefficients.
proof fn lemma_lines_matrix(lines: Seq<Seq<char>>, eqs: Seq<(SpecTerms, Rational)>, texts: Seq<Seq<char>>)
    requires
        parse_lines(lines) == Some(Ok::<_, Seq<char>>((eqs, texts))),
        total_terms(eqs) < usize::MAX,
    ensures
        eqs.len() == lines.len(),
        forall|i: int| 0 <= i < lines.len() ==> equation_spec(#[trigger] lines[i]) == Some(Ok::<_, Seq<char>>(eqs[i])),
        forall|i: int| 0 <= i < eqs.len() ==> equation_reduced(#[trigger] eqs[i]) && sorted_keys(eqs[i].0),
        forall|i: int, t: int|
            0 <= i < eqs.len() && 0 <= t < eqs[i].0.len() ==> from_equations_spec(eqs).vars.contains((#[trigger] eqs[i].0[t]).0),
        shaped(from_equations_spec(eqs)),
        forall|i: int, k: int|
            0 <= i < eqs.len() && 0 <= k < from_equations_spec(eqs).cols ==> #[trigger] from_equations_spec(eqs).data[i][k]
                == coeff_of(eqs[i].0, from_equations_spec(eqs).vars[k]),
        forall|i: int| 0 <= i < eqs.len() ==> #[trigger] from_equations_spec(eqs).data[i][from_equations_spec(eqs).cols as int] == eqs[i].1,
{
    lemma_parse_lines_each(lines);
    assert forall|i: int| 0 <= i < eqs.len() implies equation_reduced(#[trigger] eqs[i]) && sorted_keys(eqs[i].0) by {
        assert(equation_spec(lines[i]) == Some(Ok::<_, Seq<char>>(eqs[i])));
        law_normalized_equation_shape(lines[i]);
    }
    law_matrix_columns(eqs);
    lemma_variable_numbers_has(eqs);
    assert forall|i: int, t: int| 0 <= i < eqs.len() && 0 <= t < eqs[i].0.len() implies from_equations_spec(eqs).vars.contains((#[trigger] eqs[i].0[t]).0) by {
        lemma_get_in_keys(variable_numbers(eqs), eqs[i].0[t].0);
    }
    let a = from_equations_spec(eqs);
    assert forall|r: int| 0 <= r < a.rows implies #[trigger] a.data[r].len() == a.cols + 1 by {}
}

// ---------------------------------------------------------------------------
// The laws
// ---------------------------------------------------------------------------

/// A unique answer solves the lines typed in: where the lines parse and elimination
/// reports a unique solution, every name of the system has a value, the answer lists
/// the names with the texts of these values, and with these values every line's
/// equation holds by name.
pub proof fn law_solve_unique_solves_the_lines(lines: Seq<Seq<char>>)
    ensures
        parse_lines(lines) matches Some(Ok((eqs, texts))) ==> (total_terms(eqs) < usize::MAX ==> (gauss_spec(
            from_equations_spec(eqs),
        ) matches Some((steps, SpecSolution::Unique(sol))) ==> {
            &&& forall|i: int| 0 <= i < lines.len() ==> equation_spec(#[trigger] lines[i]) == Some(Ok::<_, Seq<char>>(eqs[i]))
            &&& forall|i: int, t: int|
                0 <= i < eqs.len() && 0 <= t < eqs[i].0.len() ==> from_equations_spec(eqs).vars.contains((#[trigger] eqs[i].0[t]).0)
            &&& forall|k: int|
                0 <= k < from_equations_spec(eqs).cols ==> assoc_get(sol, #[trigger] from_equations_spec(eqs).vars[k]) is Some
            &&& forall|i: int|
                0 <= i < lines.len() ==> holds_by_name(
                    #[trigger] eqs[i],
                    from_equations_spec(eqs).vars,
                    |v: Seq<char>| value_of(sol, v),
                )
            &&& solve_spec(lines) matches Some(Ok(resp)) ==> {
                &&& resp.solution_type == "unique"@
                &&& resp.solution_vars == assoc_keys(sol)
                &&& value_texts(sol) == Some(resp.solution_values)
            }
        })),
{
    match parse_lines(lines) {
        Some(Ok((eqs, texts))) => {
            if total_terms(eqs) < usize::MAX {
                match gauss_spec(from_equations_spec(eqs)) {
                    Some((steps, SpecSolution::Unique(sol))) => {
                        lemma_lines_matrix(lines, eqs, texts);
                        let a = from_equations_spec(eqs);
                        let m = a.cols;
                        law_built_matrix_is_valid(eqs);
                        law_unique_solution_solves(a);
                        let x = frs(solution_vector(sol, a.vars));
                        let val = |v: Seq<char>| value_of(sol, v);
                        assert forall|i: int| 0 <= i < lines.len() implies holds_by_name(#[trigger] eqs[i], a.vars, val) by {
                            assert(satisfies(a.data[i], x, m));
                            let cr = Seq::new(a.vars.len(), |k: int| coeff_of(eqs[i].0, a.vars[k]));
                            let xv = Seq::new(a.vars.len(), |k: int| val(a.vars[k]));
                            assert(xv =~= x);
                            lemma_lin_rows(a.data[i], cr, x, 0, m);
                        }
                    },
                    _ => {},
                }
            }
        },
        _ => {},
    }
}

/// An answer without solution is right about the lines typed in: where the lines
/// parse and elimination reports no solution, no values (with non-zero
/// denominators) given to the names make every line's equation hold.
pub proof fn law_solve_no_solution_for_the_lines(lines: Seq<Seq<char>>, val: spec_fn(Seq<char>) -> Frac)
    requires
        forall|v: Seq<char>| fnz(#[trigger] val(v)),
    ensures
        parse_lines(lines) matches Some(Ok((eqs, texts))) ==> (total_terms(eqs) < usize::MAX ==> (gauss_spec(
            from_equations_spec(eqs),
        ) matches Some((steps, SpecSolution::NoSolution)) ==> {
            &&& exists|i: int| 0 <= i < lines.len() && !holds_by_name(#[trigger] eqs[i], from_equations_spec(eqs).vars, val)
            &&& solve_spec(lines) matches Some(Ok(resp)) ==> resp.solution_type == "no_solution"@
        })),
{
    match parse_lines(lines) {
        Some(Ok((eqs, texts))) => {
            if total_terms(eqs) < usize::MAX {
                match gauss_spec(from_equations_spec(eqs)) {
                    Some((steps, SpecSolution::NoSolution)) => {
                        lemma_lines_matrix(lines, eqs, texts);
                        let a = from_equations_spec(eqs);
                        let m = a.cols;
                        law_built_matrix_is_valid(eqs);
                        let x = Seq::new(m, |k: int| val(a.vars[k]));
                        assert(vec_nz(x, m));
                        law_no_solution_is_exact(a, x);
                        let i = choose|i: int| 0 <= i < a.rows && !satisfies(#[trigger] a.data[i], x, m);
                        let cr = Seq::new(a.vars.len(), |k: int| coeff_of(eqs[i].0, a.vars[k]));
                        lemma_lin_rows(a.data[i], cr, x, 0, m);
                        assert(Seq::new(a.vars.len(), |k: int| val(a.vars[k])) =~= x);
                        assert(!holds_by_name(eqs[i], a.vars, val));
                    },
                    _ => {},
                }
            }
        },
        _ => {},
    }
}

} // verus!
