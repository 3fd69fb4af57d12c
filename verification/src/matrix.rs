use vstd::prelude::*;
use crate::names::{
    assoc_get, assoc_keys, assoc_lookup, assoc_put, assoc_store, entries_view, lemma_assoc_get_last,
    lemma_assoc_get_sorted, lemma_assoc_put_sorted, lemma_assoc_put_values, name_lt, sorted_keys,
};
use crate::parser::{NormalizedEquation, SpecTerms};
use crate::rational::{wf, zero_spec, Rational};

verus! {

/// The augmented coefficient matrix `[A | b]` of a linear system: `rows` equations
/// over `cols` variables, each row holding `cols` coefficients followed by the
/// constant.
#[derive(Debug)]
pub struct AugmentedMatrix {
    pub data: Vec<Vec<Rational>>,
    pub vars: Vec<String>,
    pub rows: usize,
    pub cols: usize,
}

pub struct SpecMatrix {
    pub data: Seq<Seq<Rational>>,
    pub vars: Seq<Seq<char>>,
    pub rows: nat,
    pub cols: nat,
}

pub open spec fn data_view(d: Seq<Vec<Rational>>) -> Seq<Seq<Rational>> {
    d.map_values(|row: Vec<Rational>| row@)
}

pub open spec fn names_view(v: Seq<String>) -> Seq<Seq<char>> {
    v.map_values(|s: String| s@)
}

impl View for AugmentedMatrix {
    type V = SpecMatrix;

    open spec fn view(&self) -> SpecMatrix {
        SpecMatrix {
            data: data_view(self.data@),
            vars: names_view(self.vars@),
            rows: self.rows as nat,
            cols: self.cols as nat,
        }
    }
}

/// The shape the elimination reads: `rows` rows of `cols + 1` entries, and one
/// name per column.
pub open spec fn shaped(m: SpecMatrix) -> bool {
    &&& m.data.len() == m.rows
    &&& m.vars.len() == m.cols
    &&& forall|r: int| 0 <= r < m.rows ==> #[trigger] m.data[r].len() == m.cols + 1
}

// ---------------------------------------------------------------------------
// Building the matrix from normalized equations
// ---------------------------------------------------------------------------

/// Numbers the names of `terms` (in their order) that `set` does not know yet,
/// continuing from the size of `set`.
pub open spec fn number_names(set: Seq<(Seq<char>, usize)>, terms: SpecTerms) -> Seq<(Seq<char>, usize)>
    decreases terms.len(),
{
    if terms.len() == 0 {
        set
    } else {
        let s = number_names(set, terms.drop_last());
        let v = terms.last().0;
        if assoc_get(s, v) is None {
            assoc_put(s, v, s.len() as usize)
        } else {
            s
        }
    }
}

/// The names of all equations, each numbered by its first appearance (equations in
/// order, names of one equation in their sorted order), kept sorted by name.
pub open spec fn variable_numbers(eqs: Seq<(SpecTerms, Rational)>) -> Seq<(Seq<char>, usize)>
    decreases eqs.len(),
{
    if eqs.len() == 0 {
        Seq::empty()
    } else {
        number_names(variable_numbers(eqs.drop_last()), eqs.last().0)
    }
}

/// Writes each coefficient of `terms` into the column its name is numbered with.
pub open spec fn fill_row(row: Seq<Rational>, terms: SpecTerms, set: Seq<(Seq<char>, usize)>) -> Seq<Rational>
    decreases terms.len(),
{
    if terms.len() == 0 {
        row
    } else {
        let r = fill_row(row, terms.drop_last(), set);
        match assoc_get(set, terms.last().0) {
            Some(idx) => if idx < r.len() {
                r.update(idx as int, terms.last().1)
            } else {
                r
            },
            None => r,
        }
    }
}

/// The row of one equation: zeros, its coefficients at their columns, its constant
/// last.
pub open spec fn equation_row(eq: (SpecTerms, Rational), set: Seq<(Seq<char>, usize)>, m: nat) -> Seq<Rational> {
    fill_row(Seq::new(m + 1, |j: int| zero_spec()), eq.0, set).update(m as int, eq.1)
}

/// Each name numbered by its place in the sorted list of names.
pub open spec fn column_numbers(set: Seq<(Seq<char>, usize)>) -> Seq<(Seq<char>, usize)> {
    Seq::new(set.len(), |i: int| (set[i].0, i as usize))
}

/// The coefficient of the variable `v` in the terms, zero where it has none.
pub open spec fn coeff_of(terms: SpecTerms, v: Seq<char>) -> Rational {
    match assoc_get(terms, v) {
        Some(c) => c,
        None => zero_spec(),
    }
}

/// The matrix `from_equations` builds: one row per equation, one column per variable
/// name in sorted order (the names are those of all equations), the constants last.
pub open spec fn from_equations_spec(eqs: Seq<(SpecTerms, Rational)>) -> SpecMatrix {
    let set = variable_numbers(eqs);
    let m = set.len();
    SpecMatrix {
        data: Seq::new(eqs.len(), |i: int| equation_row(eqs[i], column_numbers(set), m)),
        vars: assoc_keys(set),
        rows: eqs.len(),
        cols: m,
    }
}

pub open spec fn equations_view(eqs: Seq<NormalizedEquation>) -> Seq<(SpecTerms, Rational)> {
    eqs.map_values(|e: NormalizedEquation| e@)
}

/// The number of terms over all equations.
pub open spec fn total_terms(eqs: Seq<(SpecTerms, Rational)>) -> nat
    decreases eqs.len(),
{
    if eqs.len() == 0 {
        0
    } else {
        total_terms(eqs.drop_last()) + eqs.last().0.len()
    }
}

/// Numbered names: numbers `0..len` in some order, names sorted.
pub open spec fn numbering_ok(set: Seq<(Seq<char>, usize)>) -> bool {
    &&& sorted_keys(set)
    &&& forall|i: int| 0 <= i < set.len() ==> (#[trigger] set[i]).1 < set.len()
}

proof fn lemma_number_names(set: Seq<(Seq<char>, usize)>, terms: SpecTerms)
    requires
        numbering_ok(set),
        set.len() + terms.len() <= usize::MAX,
    ensures
        numbering_ok(number_names(set, terms)),
        number_names(set, terms).len() <= set.len() + terms.len(),
    decreases terms.len(),
{
    if terms.len() > 0 {
        lemma_number_names(set, terms.drop_last());
        let s = number_names(set, terms.drop_last());
        let v = terms.last().0;
        if assoc_get(s, v) is None {
            lemma_assoc_put_sorted(s, v, s.len() as usize);
            let t = assoc_put(s, v, s.len() as usize);
            lemma_assoc_put_values(s, v, s.len() as usize);
            assert forall|i: int| 0 <= i < t.len() implies (#[trigger] t[i]).1 < t.len() by {
                if t[i].1 != s.len() as usize {
                    let k = choose|k: int| 0 <= k < s.len() && s[k].1 == t[i].1;
                    assert(s[k].1 < s.len());
                }
            }
        }
    }
}

pub(crate) proof fn lemma_variable_numbers(eqs: Seq<(SpecTerms, Rational)>)
    requires
        total_terms(eqs) <= usize::MAX,
    ensures
        numbering_ok(variable_numbers(eqs)),
        variable_numbers(eqs).len() <= total_terms(eqs),
    decreases eqs.len(),
{
    if eqs.len() > 0 {
        lemma_variable_numbers(eqs.drop_last());
        lemma_number_names(variable_numbers(eqs.drop_last()), eqs.last().0);
    }
}

/// A row of `n` zeros.
fn zero_row(n: usize) -> (v: Vec<Rational>)
    ensures
        v@ == Seq::new(n as nat, |j: int| zero_spec()),
{
    let mut v: Vec<Rational> = Vec::new();
    let mut i: usize = 0;
    while i < n
        invariant
            i <= n,
            v@ == Seq::new(i as nat, |j: int| zero_spec()),
        decreases n - i,
    {
        v.push(Rational::zero());
        i = i + 1;
        assert(v@ =~= Seq::new(i as nat, |j: int| zero_spec()));
    }
    v
}

/// The names of an association list, in order.
fn names_of(set: &Vec<(String, usize)>) -> (v: Vec<String>)
    ensures
        names_view(v@) == assoc_keys(entries_view(set@)),
{
    let mut v: Vec<String> = Vec::new();
    let mut i: usize = 0;
    while i < set.len()
        invariant
            i <= set.len(),
            names_view(v@) == assoc_keys(entries_view(set@)).subrange(0, i as int),
        decreases set.len() - i,
    {
        let s = set[i].0.clone();
        let ghost old_v = names_view(v@);
        assert(assoc_keys(entries_view(set@))[i as int] == set@[i as int].0@);
        assert(s@ == set@[i as int].0@);
        v.push(s);
        assert(names_view(v@) =~= old_v.push(set@[i as int].0@));
        i = i + 1;
        assert(names_view(v@) =~= assoc_keys(entries_view(set@)).subrange(0, i as int));
    }
    assert(assoc_keys(entries_view(set@)).subrange(0, set.len() as int) =~= assoc_keys(
        entries_view(set@),
    ));
    v
}

impl AugmentedMatrix {
    /// Builds the augmented matrix of the equations and returns it with the list of
    /// variable names (see [`from_equations_spec`]).
    pub fn from_equations(equations: &Vec<NormalizedEquation>) -> (r: (AugmentedMatrix, Vec<String>))
        requires
            total_terms(equations_view(equations@)) < usize::MAX,
        ensures
            r.0@ == from_equations_spec(equations_view(equations@)),
            names_view(r.1@) == r.0@.vars,
            shaped(r.0@),
            r.0.cols <= total_terms(equations_view(equations@)),
            r.0.rows == equations.len(),
            forall|i: int, k: int|
                0 <= i < r.0.rows && 0 <= k < r.0.cols ==> #[trigger] r.0@.data[i][k]
                    == written_coeff(equations_view(equations@)[i].0, r.0@.vars[k]),
            forall|i: int, k: int|
                0 <= i < r.0.rows && 0 <= k < r.0.cols && sorted_keys(equations_view(equations@)[i].0) ==> #[trigger] r.0@.data[i][k]
                    == coeff_of(equations_view(equations@)[i].0, r.0@.vars[k]),
    {
        let ghost eqs = equations_view(equations@);
        let mut set: Vec<(String, usize)> = Vec::new();
        let mut e: usize = 0;
        proof {
            lemma_variable_numbers(eqs);
        }
        while e < equations.len()
            invariant
                e <= equations.len(),
                eqs == equations_view(equations@),
                total_terms(eqs) < usize::MAX,
                entries_view(set@) == variable_numbers(eqs.subrange(0, e as int)),
                numbering_ok(entries_view(set@)),
                set.len() <= total_terms(eqs.subrange(0, e as int)),
                total_terms(eqs.subrange(0, e as int)) <= total_terms(eqs),
            decreases equations.len() - e,
        {
            let terms = &equations[e].terms;
            let ghost before = entries_view(set@);
            let ghost tv = entries_view(terms@);
            assert(eqs.subrange(0, e + 1).drop_last() =~= eqs.subrange(0, e as int));
            assert(eqs.subrange(0, e + 1).last() == eqs[e as int]);
            assert(eqs[e as int].0 == tv);
            proof {
                lemma_total_terms_prefix(eqs, e as int + 1);
                assert(total_terms(eqs.subrange(0, e + 1)) == total_terms(eqs.subrange(0, e as int)) + tv.len());
            }
            let mut k: usize = 0;
            assert(tv.subrange(0, 0) =~= Seq::<(Seq<char>, Rational)>::empty());
            while k < terms.len()
                invariant
                    k <= terms.len(),
                    tv == entries_view(terms@),
                    entries_view(set@) == number_names(before, tv.subrange(0, k as int)),
                    numbering_ok(entries_view(set@)),
                    set.len() <= before.len() + k,
                    before.len() + tv.len() < usize::MAX,
                decreases terms.len() - k,
            {
                assert(tv.subrange(0, k + 1).drop_last() =~= tv.subrange(0, k as int));
                assert(tv[k as int].0 == terms@[k as int].0@);
                let ghost cur = entries_view(set@);
                if assoc_lookup(&set, &terms[k].0).is_none() {
                    let name = terms[k].0.clone();
                    let idx = set.len();
                    proof {
                        lemma_assoc_put_sorted(cur, name@, idx);
                        lemma_assoc_put_values(cur, name@, idx);
                    }
                    assoc_store(&mut set, name, idx);
                    proof {
                        let t = entries_view(set@);
                        assert forall|i: int| 0 <= i < t.len() implies (#[trigger] t[i]).1 < t.len() by {
                            if t[i].1 != idx {
                                let mm = choose|mm: int| 0 <= mm < cur.len() && cur[mm].1 == t[i].1;
                                assert(cur[mm].1 < cur.len());
                            }
                        }
                    }
                }
                k = k + 1;
            }
            assert(tv.subrange(0, terms.len() as int) =~= tv);
            e = e + 1;
        }
        assert(eqs.subrange(0, equations.len() as int) =~= eqs);
        let ghost set_v = entries_view(set@);
        let m = set.len();
        // each name numbered by its place in the sorted list
        let mut cols: Vec<(String, usize)> = Vec::new();
        let mut q: usize = 0;
        while q < m
            invariant
                q <= m,
                m == set.len(),
                set_v == entries_view(set@),
                entries_view(cols@) == column_numbers(set_v).subrange(0, q as int),
            decreases m - q,
        {
            let name = set[q].0.clone();
            let ghost before = entries_view(cols@);
            cols.push((name, q));
            assert(entries_view(cols@) =~= before.push((set_v[q as int].0, q)));
            q = q + 1;
            assert(entries_view(cols@) =~= column_numbers(set_v).subrange(0, q as int));
        }
        assert(column_numbers(set_v).subrange(0, m as int) =~= column_numbers(set_v));
        let ghost cols_v = entries_view(cols@);
        proof {
            lemma_column_numbers(set_v);
        }
        let all_vars = names_of(&set);
        let mut data: Vec<Vec<Rational>> = Vec::new();
        let mut i: usize = 0;
        while i < equations.len()
            invariant
                i <= equations.len(),
                eqs == equations_view(equations@),
                cols_v == entries_view(cols@),
                cols_v == column_numbers(set_v),
                set_v == variable_numbers(eqs),
                numbering_ok(cols_v),
                m == cols_v.len(),
                m < usize::MAX,
                data.len() == i,
                forall|k: int| 0 <= k < i ==> (#[trigger] data@[k])@ == equation_row(eqs[k], cols_v, m as nat),
            decreases equations.len() - i,
        {
            let eq = &equations[i];
            let ghost tv = entries_view(eq.terms@);
            assert(eqs[i as int] == eq@);
            let mut row = zero_row(m + 1);
            let mut k: usize = 0;
            assert(tv.subrange(0, 0) =~= Seq::<(Seq<char>, Rational)>::empty());
            while k < eq.terms.len()
                invariant
                    k <= eq.terms.len(),
                    tv == entries_view(eq.terms@),
                    cols_v == entries_view(cols@),
                    numbering_ok(cols_v),
                    m == cols_v.len(),
                    row@ == fill_row(Seq::new(m as nat + 1, |j: int| zero_spec()), tv.subrange(0, k as int), cols_v),
                    row@.len() == m + 1,
                decreases eq.terms.len() - k,
            {
                assert(tv.subrange(0, k + 1).drop_last() =~= tv.subrange(0, k as int));
                assert(tv[k as int] == (eq.terms@[k as int].0@, eq.terms@[k as int].1));
                match assoc_lookup(&cols, &eq.terms[k].0) {
                    Some(idx) => {
                        proof {
                            lemma_assoc_get_index(cols_v, tv[k as int].0);
                        }
                        row.set(idx, eq.terms[k].1);
                    },
                    None => {},
                }
                k = k + 1;
            }
            assert(tv.subrange(0, eq.terms.len() as int) =~= tv);
            row.set(m, eq.constant);
            data.push(row);
            i = i + 1;
        }
        let n = equations.len();
        let vars2 = names_of(&set);
        let matrix = AugmentedMatrix { data, vars: all_vars, rows: n, cols: m };
        proof {
            assert(matrix@.data =~= from_equations_spec(eqs).data);
            assert(matrix@.vars =~= from_equations_spec(eqs).vars);
            assert forall|r: int| 0 <= r < n implies #[trigger] matrix@.data[r].len() == m + 1 by {
                lemma_fill_row_len(Seq::new(m as nat + 1, |j: int| zero_spec()), eqs[r].0, cols_v);
            }
            law_matrix_columns(eqs);
        }
        (matrix, vars2)
    }
}

proof fn lemma_fill_row_len(row: Seq<Rational>, terms: SpecTerms, set: Seq<(Seq<char>, usize)>)
    ensures
        fill_row(row, terms, set).len() == row.len(),
    decreases terms.len(),
{
    if terms.len() > 0 {
        lemma_fill_row_len(row, terms.drop_last(), set);
    }
}

proof fn lemma_total_terms_prefix(eqs: Seq<(SpecTerms, Rational)>, k: int)
    requires
        0 <= k <= eqs.len(),
    ensures
        total_terms(eqs.subrange(0, k)) <= total_terms(eqs),
    decreases eqs.len() - k,
{
    if k < eqs.len() {
        lemma_total_terms_prefix(eqs, k + 1);
        assert(eqs.subrange(0, k + 1).drop_last() =~= eqs.subrange(0, k));
    } else {
        assert(eqs.subrange(0, k) =~= eqs);
    }
}

/// A value stored in a numbering is below its size.
proof fn lemma_assoc_get_index(set: Seq<(Seq<char>, usize)>, k: Seq<char>)
    requires
        numbering_ok(set),
    ensures
        assoc_get(set, k) matches Some(idx) ==> idx < set.len(),
{
    lemma_assoc_get_in(set, k);
    if assoc_get(set, k) is Some {
        let i = choose|i: int| 0 <= i < set.len() && set[i].1 == assoc_get(set, k)->Some_0;
        assert(set[i].1 < set.len());
    }
}

proof fn lemma_assoc_get_in<V>(s: Seq<(Seq<char>, V)>, k: Seq<char>)
    ensures
        assoc_get(s, k) matches Some(v) ==> exists|i: int| 0 <= i < s.len() && s[i].1 == v,
    decreases s.len(),
{
    if s.len() > 0 && s[0].0 != k {
        let t = s.drop_first();
        lemma_assoc_get_in(t, k);
        if assoc_get(t, k) is Some {
            let i = choose|i: int| 0 <= i < t.len() && t[i].1 == assoc_get(t, k)->Some_0;
            assert(s[i + 1] == t[i]);
        }
    } else if s.len() > 0 {
        assert(s[0].1 == assoc_get(s, k)->Some_0);
    }
}

/// Numbering the sorted names by their places keeps the list sorted and numbered.
proof fn lemma_column_numbers(set: Seq<(Seq<char>, usize)>)
    requires
        sorted_keys(set),
        set.len() <= usize::MAX,
    ensures
        numbering_ok(column_numbers(set)),
        assoc_keys(column_numbers(set)) == assoc_keys(set),
        forall|j: int| 0 <= j < set.len() ==> assoc_get(column_numbers(set), (#[trigger] set[j]).0) == Some(j as usize),
        forall|k: Seq<char>|
            (#[trigger] assoc_get(column_numbers(set), k)) is Some ==> assoc_get(column_numbers(set), k).unwrap() < set.len()
                && set[assoc_get(column_numbers(set), k).unwrap() as int].0 == k,
{
    let cs = column_numbers(set);
    assert forall|i: int, j: int| 0 <= i < j < cs.len() implies name_lt(#[trigger] cs[i].0, #[trigger] cs[j].0) by {
        assert(name_lt(set[i].0, set[j].0));
    }
    assert(assoc_keys(cs) =~= assoc_keys(set));
    assert forall|j: int| 0 <= j < set.len() implies assoc_get(cs, (#[trigger] set[j]).0) == Some(j as usize) by {
        lemma_assoc_get_sorted(cs, set[j].0);
        assert(cs[j].0 == set[j].0);
    }
    assert forall|k: Seq<char>| (#[trigger] assoc_get(cs, k)) is Some implies assoc_get(cs, k).unwrap() < set.len() && set[assoc_get(cs, k).unwrap() as int].0 == k by {
        lemma_assoc_get_sorted(cs, k);
        if exists|j: int| 0 <= j < cs.len() && cs[j].0 == k {
            let j = choose|j: int| 0 <= j < cs.len() && cs[j].0 == k;
            assert(assoc_get(cs, k) == Some(cs[j].1));
        }
    }
}

/// The value of the last entry named `v`, if any.
pub open spec fn last_get(terms: SpecTerms, v: Seq<char>) -> Option<Rational>
    decreases terms.len(),
{
    if terms.len() == 0 {
        None
    } else if terms.last().0 == v {
        Some(terms.last().1)
    } else {
        last_get(terms.drop_last(), v)
    }
}

/// The coefficient written for `v`: that of the last entry named `v`, zero where
/// none is.
pub open spec fn written_coeff(terms: SpecTerms, v: Seq<char>) -> Rational {
    match last_get(terms, v) {
        Some(c) => c,
        None => zero_spec(),
    }
}

/// In terms sorted by name each name occurs once, so its last entry is its only one.
proof fn lemma_last_get_sorted(terms: SpecTerms, v: Seq<char>)
    requires
        sorted_keys(terms),
    ensures
        last_get(terms, v) == assoc_get(terms, v),
    decreases terms.len(),
{
    if terms.len() == 0 {
        lemma_assoc_get_sorted(terms, v);
    } else {
        lemma_assoc_get_last(terms, v);
        lemma_last_get_sorted(terms.drop_last(), v);
    }
}

/// Filling a row by column numbers: each column gets the coefficient of the last
/// entry of its name, and keeps its value where the terms have no such entry.
proof fn lemma_fill_row_columns(row: Seq<Rational>, terms: SpecTerms, set: Seq<(Seq<char>, usize)>)
    requires
        sorted_keys(set),
        set.len() <= usize::MAX,
        row.len() > set.len(),
    ensures
        fill_row(row, terms, column_numbers(set)).len() == row.len(),
        forall|k: int|
            0 <= k < set.len() ==> #[trigger] fill_row(row, terms, column_numbers(set))[k] == match last_get(terms, set[k].0) {
                Some(c) => c,
                None => row[k],
            },
        forall|k: int| set.len() <= k < row.len() ==> #[trigger] fill_row(row, terms, column_numbers(set))[k] == row[k],
    decreases terms.len(),
{
    lemma_column_numbers(set);
    let cs = column_numbers(set);
    if terms.len() > 0 {
        let t0 = terms.drop_last();
        let last = terms.last();
        lemma_fill_row_columns(row, t0, set);
        assert forall|k: int| 0 <= k < set.len() implies #[trigger] fill_row(row, terms, cs)[k] == match last_get(terms, set[k].0) {
            Some(c) => c,
            None => row[k],
        } by {
            if last.0 == set[k].0 {
                assert(assoc_get(cs, last.0) == Some(k as usize));
            } else {
                if assoc_get(cs, last.0) is Some {
                    let j = assoc_get(cs, last.0).unwrap();
                    assert(set[j as int].0 == last.0);
                    assert(j != k);
                }
            }
        }
    }
}

/// Column `k` of row `i` holds the coefficient that equation `i` gives the `k`-th
/// name (that of its last entry of the name, zero where it has none; for equations
/// whose names are sorted, as parsing gives them, the one entry of the name), and
/// the last column holds its constant.
pub proof fn law_matrix_columns(eqs: Seq<(SpecTerms, Rational)>)
    requires
        total_terms(eqs) <= usize::MAX,
    ensures
        forall|i: int, k: int|
            0 <= i < eqs.len() && 0 <= k < from_equations_spec(eqs).cols ==> #[trigger] from_equations_spec(eqs).data[i][k]
                == written_coeff(eqs[i].0, from_equations_spec(eqs).vars[k]),
        forall|i: int, k: int|
            0 <= i < eqs.len() && 0 <= k < from_equations_spec(eqs).cols && sorted_keys(eqs[i].0) ==> #[trigger] from_equations_spec(eqs).data[i][k]
                == coeff_of(eqs[i].0, from_equations_spec(eqs).vars[k]),
        forall|i: int|
            0 <= i < eqs.len() ==> #[trigger] from_equations_spec(eqs).data[i][from_equations_spec(eqs).cols as int] == eqs[i].1,
        forall|i: int| 0 <= i < eqs.len() ==> #[trigger] from_equations_spec(eqs).data[i].len() == from_equations_spec(eqs).cols + 1,
{
    let set = variable_numbers(eqs);
    let m = set.len();
    lemma_variable_numbers(eqs);
    let a = from_equations_spec(eqs);
    let z = Seq::new(m + 1, |j: int| zero_spec());
    assert forall|i: int| 0 <= i < eqs.len() implies #[trigger] a.data[i].len() == m + 1 && a.data[i][m as int] == eqs[i].1 by {
        lemma_fill_row_len(z, eqs[i].0, column_numbers(set));
        assert(a.data[i] == fill_row(z, eqs[i].0, column_numbers(set)).update(m as int, eqs[i].1));
    }
    assert forall|i: int| 0 <= i < eqs.len() implies #[trigger] from_equations_spec(eqs).data[i][from_equations_spec(eqs).cols as int] == eqs[i].1 by {
        assert(a.data[i].len() == m + 1);
        assert(a.data[i][m as int] == eqs[i].1);
    }
    assert forall|i: int, k: int| 0 <= i < eqs.len() && 0 <= k < m implies #[trigger] a.data[i][k] == written_coeff(eqs[i].0, a.vars[k]) by {
        lemma_fill_row_columns(z, eqs[i].0, set);
        assert(a.vars[k] == set[k].0);
    }
    assert forall|i: int, k: int| 0 <= i < eqs.len() && 0 <= k < m && sorted_keys(eqs[i].0) implies #[trigger] a.data[i][k] == coeff_of(eqs[i].0, a.vars[k]) by {
        lemma_last_get_sorted(eqs[i].0, a.vars[k]);
    }
}

} // verus!
