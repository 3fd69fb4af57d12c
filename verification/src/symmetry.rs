use vstd::prelude::*;
use crate::names::{
    assoc_get, assoc_put, lemma_assoc_get_last, lemma_assoc_get_put, lemma_assoc_get_sorted,
    lemma_name_lt_asymmetric, lemma_name_lt_irreflexive, name_lt, sorted_keys,
};
use crate::number_theory::abs_int;
use crate::lexer::{
    digit_run_end, glue, ident_char, ident_run_end, lex, lex_from, prepend, SpecToken,
};
use crate::text::{char_is_alphabetic, char_is_whitespace, digits_value, is_digit_spec};
use crate::parser::{
    combine_spec, equation_spec, expr_loop, lemma_expression_sorted, expression_spec, factor_spec, signed, term_loop, term_spec, SpecAtom,
    all_wf, drop_zero_terms, lemma_drop_zero_terms, lemma_merge_sub_sorted, merge_sub, SpecTerms,
};
use crate::rational::{canon, lemma_canon_of_wf, lemma_make, make, spec_add, spec_sub, wf, zero_spec, Rational};

verus! {

// ---------------------------------------------------------------------------
// Negated coefficients
// ---------------------------------------------------------------------------

/// `b` is the negation of `a`: both absent, or both present with opposite
/// numerators over the same denominator.
pub open spec fn negated_opt(a: Option<Rational>, b: Option<Rational>) -> bool {
    match (a, b) {
        (None, None) => true,
        (Some(x), Some(y)) => y.num == -x.num && y.den == x.den,
        _ => false,
    }
}

/// `u` lists the names of `t`, in the same order, with the coefficients negated.
pub open spec fn negated_terms(t: SpecTerms, u: SpecTerms) -> bool {
    &&& u.len() == t.len()
    &&& forall|i: int|
        0 <= i < t.len() ==> (#[trigger] u[i]).0 == t[i].0 && u[i].1.num == -t[i].1.num
            && u[i].1.den == t[i].1.den
}

proof fn lemma_make_neg(n: int, d: int)
    requires
        make(n, d) is Some,
        make(-n, d) is Some,
    ensures
        make(-n, d)->Some_0.num == -make(n, d)->Some_0.num,
        make(-n, d)->Some_0.den == make(n, d)->Some_0.den,
{
    assert(abs_int(-n) == abs_int(n));
    lemma_make(n, d);
    lemma_make(-n, d);
    if n != 0 {
        assert(canon(-n, d).0 == -canon(n, d).0);
        assert(canon(-n, d).1 == canon(n, d).1);
    }
}

/// Subtracting the other way round negates the difference.
proof fn lemma_sub_swap(a: Rational, b: Rational)
    ensures
        spec_sub(a, b) is Some && spec_sub(b, a) is Some ==> negated_opt(spec_sub(a, b), spec_sub(b, a)),
{
    let p = a.num * b.den;
    let q = b.num * a.den;
    if spec_sub(a, b) is Some && spec_sub(b, a) is Some {
        assert(q - p == -(p - q));
        assert(b.den * a.den == a.den * b.den) by (nonlinear_arith);
        lemma_make_neg(p - q, a.den * b.den);
    }
}

/// Subtracting zero from a rational in lowest terms gives it back, where its
/// numerator has a negation.
proof fn lemma_sub_zero(x: Rational)
    requires
        wf(x),
        x.num != i128::MIN,
    ensures
        spec_sub(x, zero_spec()) == Some(x),
{
    lemma_canon_of_wf(x);
    assert(x.num * 1 == x.num && 0 * x.den == 0 && x.den * 1 == x.den);
}

/// A reduced form exists for `n / d` exactly when one exists for `-n / d`.
proof fn lemma_make_neg_some(n: int, d: int)
    ensures
        make(n, d) is Some <==> make(-n, d) is Some,
{
    assert(abs_int(-n) == abs_int(n));
    if n != 0 {
        assert(canon(-n, d).1 == canon(n, d).1);
    }
}

/// A difference exists exactly when the difference the other way round does.
proof fn lemma_sub_swap_some(a: Rational, b: Rational)
    ensures
        spec_sub(a, b) is Some <==> spec_sub(b, a) is Some,
{
    let p = a.num * b.den;
    let q = b.num * a.den;
    assert(q - p == -(p - q));
    assert(b.den * a.den == a.den * b.den) by (nonlinear_arith);
    lemma_make_neg_some(p - q, a.den * b.den);
}

/// Where the coefficient is absent, zero.
pub open spec fn or_zero(a: Option<Rational>) -> Rational {
    match a {
        Some(x) => x,
        None => zero_spec(),
    }
}

/// Reading a subtraction of term lists by name.
proof fn lemma_merge_sub_get(acc: SpecTerms, rt: SpecTerms, v: Seq<char>)
    requires
        sorted_keys(rt),
        merge_sub(acc, rt) is Some,
    ensures
        assoc_get(rt, v) matches Some(c) ==> assoc_get(merge_sub(acc, rt)->Some_0, v) is Some
            && spec_sub(or_zero(assoc_get(acc, v)), c) == assoc_get(merge_sub(acc, rt)->Some_0, v),
        assoc_get(rt, v) is None ==> assoc_get(merge_sub(acc, rt)->Some_0, v) == assoc_get(acc, v),
    decreases rt.len(),
{
    if rt.len() > 0 {
        let t = rt.drop_last();
        lemma_assoc_get_last(rt, v);
        lemma_merge_sub_get(acc, t, v);
        let a = merge_sub(acc, t)->Some_0;
        let (var, coeff) = rt.last();
        let e = or_zero(assoc_get(a, var));
        let nv = spec_sub(e, coeff)->Some_0;
        assert(merge_sub(acc, rt) == Some(assoc_put(a, var, nv)));
        lemma_assoc_get_put(a, var, nv, v);
        if var == v {
            lemma_last_absent(rt);
            lemma_merge_sub_get(acc, t, var);
        }
    }
}

/// Subtracting a sorted list of terms succeeds exactly when each of its entries can
/// be subtracted from the value of its name in `acc`.
proof fn lemma_merge_sub_some(acc: SpecTerms, rt: SpecTerms)
    requires
        sorted_keys(rt),
    ensures
        merge_sub(acc, rt) is Some <==> forall|j: int|
            0 <= j < rt.len() ==> (#[trigger] spec_sub(or_zero(assoc_get(acc, rt[j].0)), rt[j].1)) is Some,
    decreases rt.len(),
{
    if rt.len() > 0 {
        let t = rt.drop_last();
        lemma_assoc_get_last(rt, rt.last().0);
        lemma_merge_sub_some(acc, t);
        let last = rt.len() - 1;
        assert(rt[last] == rt.last());
        if merge_sub(acc, t) is Some {
            lemma_last_absent(rt);
            lemma_merge_sub_get(acc, t, rt.last().0);
        }
        let all = forall|j: int|
            0 <= j < rt.len() ==> (#[trigger] spec_sub(or_zero(assoc_get(acc, rt[j].0)), rt[j].1)) is Some;
        if all {
            assert forall|j: int| 0 <= j < t.len() implies (#[trigger] spec_sub(or_zero(assoc_get(acc, t[j].0)), t[j].1)) is Some by {
                assert(t[j] == rt[j]);
                assert(spec_sub(or_zero(assoc_get(acc, rt[j].0)), rt[j].1) is Some);
            }
            assert(spec_sub(or_zero(assoc_get(acc, rt[last].0)), rt[last].1) is Some);
        }
        if merge_sub(acc, rt) is Some {
            assert forall|j: int| 0 <= j < rt.len() implies (#[trigger] spec_sub(or_zero(assoc_get(acc, rt[j].0)), rt[j].1)) is Some by {
                if j < last {
                    assert(t[j] == rt[j]);
                    assert(spec_sub(or_zero(assoc_get(acc, t[j].0)), t[j].1) is Some);
                }
            }
        }
    }
}

/// The last name of a sorted list is not among the others.
proof fn lemma_last_absent<V>(s: Seq<(Seq<char>, V)>)
    requires
        sorted_keys(s),
        s.len() > 0,
    ensures
        assoc_get(s.drop_last(), s.last().0) is None,
{
    let t = s.drop_last();
    lemma_assoc_get_last(s, s.last().0);
    lemma_assoc_get_sorted(t, s.last().0);
    assert forall|j: int| 0 <= j < t.len() implies t[j].0 != s.last().0 by {
        assert(t[j] == s[j]);
        assert(s[s.len() - 1] == s.last());
        assert(name_lt(s[j].0, s[s.len() - 1].0));
        lemma_name_lt_irreflexive(s.last().0);
    }
}

/// A list sorted by name holds a value under `v` only at an entry named `v`.
proof fn lemma_get_entry<V>(s: Seq<(Seq<char>, V)>, v: Seq<char>)
    requires
        sorted_keys(s),
        assoc_get(s, v) is Some,
    ensures
        exists|j: int| 0 <= j < s.len() && s[j].0 == v && assoc_get(s, v) == Some(s[j].1),
{
    lemma_assoc_get_sorted(s, v);
    let j = choose|j: int| 0 <= j < s.len() && s[j].0 == v;
    assert(s[j].0 == v);
}

/// Subtracting `lt` from `rt` gives, name by name, the negation of subtracting `rt`
/// from `lt`.
proof fn lemma_merge_sub_swap_get(lt: SpecTerms, rt: SpecTerms, v: Seq<char>)
    requires
        sorted_keys(lt),
        sorted_keys(rt),
        all_wf(lt),
        all_wf(rt),
        merge_sub(lt, rt) is Some,
        merge_sub(rt, lt) is Some,
    ensures
        negated_opt(assoc_get(merge_sub(lt, rt)->Some_0, v), assoc_get(merge_sub(rt, lt)->Some_0, v)),
{
    lemma_merge_sub_get(lt, rt, v);
    lemma_merge_sub_get(rt, lt, v);
    match (assoc_get(lt, v), assoc_get(rt, v)) {
        (Some(x), None) => {
            lemma_get_entry(lt, v);
            assert(wf(x));
            assert(spec_sub(zero_spec(), x) is Some);
            assert(0 * x.den - x.num * 1 == -x.num);
            lemma_sub_zero(x);
            lemma_sub_swap(x, zero_spec());
        },
        (None, Some(y)) => {
            lemma_get_entry(rt, v);
            assert(wf(y));
            assert(spec_sub(zero_spec(), y) is Some);
            assert(0 * y.den - y.num * 1 == -y.num);
            lemma_sub_zero(y);
            lemma_sub_swap(zero_spec(), y);
        },
        (Some(x), Some(y)) => {
            lemma_sub_swap(x, y);
        },
        (None, None) => {},
    }
}

/// Where `lt - rt` can be formed name by name, so can `rt - lt`.
proof fn lemma_merge_sub_swap_some(lt: SpecTerms, rt: SpecTerms)
    requires
        sorted_keys(lt),
        sorted_keys(rt),
        all_wf(lt),
        all_wf(rt),
        merge_sub(lt, rt) is Some,
    ensures
        merge_sub(rt, lt) is Some,
{
    lemma_merge_sub_some(lt, rt);
    lemma_merge_sub_some(rt, lt);
    assert forall|i: int| 0 <= i < lt.len() implies (#[trigger] spec_sub(or_zero(assoc_get(rt, lt[i].0)), lt[i].1)) is Some by {
        let v = lt[i].0;
        let x = lt[i].1;
        assert(wf(x) && x.num != i128::MIN);
        lemma_assoc_get_sorted(lt, v);
        match assoc_get(rt, v) {
            Some(y) => {
                lemma_get_entry(rt, v);
                let j = choose|j: int| 0 <= j < rt.len() && rt[j].0 == v && assoc_get(rt, v) == Some(rt[j].1);
                assert(spec_sub(or_zero(assoc_get(lt, rt[j].0)), rt[j].1) is Some);
                lemma_sub_swap_some(x, y);
            },
            None => {
                lemma_sub_zero(x);
                lemma_sub_swap_some(x, zero_spec());
            },
        }
    }
}

/// Reading the non-zero entries by name.
proof fn lemma_drop_zero_get(s: SpecTerms, v: Seq<char>)
    requires
        sorted_keys(s),
    ensures
        assoc_get(drop_zero_terms(s), v) == match assoc_get(s, v) {
            Some(x) => if x.num != 0 { Some(x) } else { None },
            None => None,
        },
    decreases s.len(),
{
    if s.len() > 0 {
        let t = s.drop_last();
        lemma_assoc_get_last(s, v);
        lemma_drop_zero_get(t, v);
        lemma_drop_zero_terms(s);
        let d = drop_zero_terms(s);
        let dt = drop_zero_terms(t);
        if s.last().1.num != 0 {
            assert(d == dt.push(s.last()));
            assert(d.drop_last() =~= dt);
            lemma_assoc_get_last(d, v);
            if v == s.last().0 {
                lemma_last_absent(s);
            }
        } else {
            if v == s.last().0 {
                lemma_last_absent(s);
            }
        }
    }
}

/// Two lists sorted by name that hold negated values under every name list the
/// same names with negated values.
proof fn lemma_negated_lists(s1: SpecTerms, s2: SpecTerms)
    requires
        sorted_keys(s1),
        sorted_keys(s2),
        forall|v: Seq<char>| negated_opt(#[trigger] assoc_get(s1, v), assoc_get(s2, v)),
    ensures
        negated_terms(s1, s2),
    decreases s1.len(),
{
    if s1.len() == 0 {
        if s2.len() > 0 {
            lemma_assoc_get_sorted(s2, s2[0].0);
            assert(negated_opt(assoc_get(s1, s2[0].0), assoc_get(s2, s2[0].0)));
        }
    } else {
        let k1 = s1.last().0;
        lemma_assoc_get_last(s1, k1);
        assert(negated_opt(assoc_get(s1, k1), assoc_get(s2, k1)));
        assert(s2.len() > 0);
        let k2 = s2.last().0;
        lemma_assoc_get_last(s2, k2);
        assert(negated_opt(assoc_get(s1, k2), assoc_get(s2, k2)));
        if k1 != k2 {
            lemma_get_entry(s1, k2);
            let i = choose|i: int| 0 <= i < s1.len() && s1[i].0 == k2 && assoc_get(s1, k2) == Some(s1[i].1);
            assert(s1[s1.len() - 1] == s1.last());
            assert(name_lt(s1[i].0, s1[s1.len() - 1].0));
            lemma_get_entry(s2, k1);
            let j = choose|j: int| 0 <= j < s2.len() && s2[j].0 == k1 && assoc_get(s2, k1) == Some(s2[j].1);
            assert(s2[s2.len() - 1] == s2.last());
            assert(name_lt(s2[j].0, s2[s2.len() - 1].0));
            lemma_name_lt_asymmetric(k1, k2);
        }
        let t1 = s1.drop_last();
        let t2 = s2.drop_last();
        lemma_last_absent(s1);
        lemma_last_absent(s2);
        assert forall|v: Seq<char>| negated_opt(#[trigger] assoc_get(t1, v), assoc_get(t2, v)) by {
            lemma_assoc_get_last(s1, v);
            lemma_assoc_get_last(s2, v);
            assert(negated_opt(assoc_get(s1, v), assoc_get(s2, v)));
        }
        lemma_negated_lists(t1, t2);
        assert forall|i: int| 0 <= i < s1.len() implies (#[trigger] s2[i]).0 == s1[i].0
            && s2[i].1.num == -s1[i].1.num && s2[i].1.den == s1[i].1.den by {
            if i < s1.len() - 1 {
                assert(t1[i] == s1[i] && t2[i] == s2[i]);
            } else {
                assert(s1[i] == s1.last() && s2[i] == s2.last());
            }
        }
    }
}

/// Normalizing `rhs = lhs` in place of `lhs = rhs` negates every coefficient and the
/// constant, where neither overflows.
proof fn lemma_normal_form_swap(lt: SpecTerms, lc: Rational, rt: SpecTerms, rc: Rational)
    requires
        sorted_keys(lt),
        sorted_keys(rt),
        all_wf(lt),
        all_wf(rt),
        merge_sub(lt, rt) is Some,
    ensures
        merge_sub(rt, lt) is Some,
        negated_terms(
            drop_zero_terms(merge_sub(lt, rt)->Some_0),
            drop_zero_terms(merge_sub(rt, lt)->Some_0),
        ),
        spec_sub(rc, lc) is Some ==> negated_opt(spec_sub(rc, lc), spec_sub(lc, rc)),
{
    lemma_merge_sub_swap_some(lt, rt);
    lemma_sub_swap_some(rc, lc);
    let m1 = merge_sub(lt, rt)->Some_0;
    let m2 = merge_sub(rt, lt)->Some_0;
    lemma_merge_sub_sorted(lt, rt);
    lemma_merge_sub_sorted(rt, lt);
    lemma_drop_zero_terms(m1);
    lemma_drop_zero_terms(m2);
    assert forall|v: Seq<char>| negated_opt(#[trigger] assoc_get(drop_zero_terms(m1), v), assoc_get(drop_zero_terms(m2), v)) by {
        lemma_drop_zero_get(m1, v);
        lemma_drop_zero_get(m2, v);
        lemma_merge_sub_swap_get(lt, rt, v);
    }
    lemma_negated_lists(drop_zero_terms(m1), drop_zero_terms(m2));
    lemma_sub_swap(rc, lc);
}

// ---------------------------------------------------------------------------
// Parsing one side of an equation
// ---------------------------------------------------------------------------

/// `ts1` from `o1` and `ts2` from `o2` hold the same `n` tokens, none of them `=`,
/// and each of the two runs ends right after them, at the end of its sequence or
/// at an `=`.
pub open spec fn same_run(ts1: Seq<SpecToken>, o1: int, ts2: Seq<SpecToken>, o2: int, n: int) -> bool {
    &&& 0 <= o1 && 0 <= o2 && 0 <= n
    &&& o1 + n <= ts1.len() && o2 + n <= ts2.len()
    &&& forall|i: int| 0 <= i < n ==> #[trigger] ts1[o1 + i] == ts2[o2 + i] && !(ts1[o1 + i] is Equals)
    &&& (o1 + n == ts1.len() || ts1[o1 + n] is Equals)
    &&& (o2 + n == ts2.len() || ts2[o2 + n] is Equals)
}

proof fn lemma_factor_run(ts1: Seq<SpecToken>, o1: int, ts2: Seq<SpecToken>, o2: int, n: int, q: int)
    requires
        same_run(ts1, o1, ts2, o2, n),
        0 <= q <= n,
        factor_spec(ts1, o1 + q) is Ok,
    ensures
        ({
            let (a, p) = factor_spec(ts1, o1 + q)->Ok_0;
            o1 + q < p <= o1 + n && factor_spec(ts2, o2 + q) == Ok::<(SpecAtom, int), Seq<char>>((a, p - o1 + o2))
        }),
{
    assert(ts1[o1 + q] == ts2[o2 + q] || q == n);
    if q + 1 < n {
        assert(ts1[o1 + (q + 1)] == ts2[o2 + (q + 1)]);
    }
}

proof fn lemma_term_loop_run(
    ts1: Seq<SpecToken>,
    o1: int,
    ts2: Seq<SpecToken>,
    o2: int,
    n: int,
    atom: SpecAtom,
    q: int,
)
    requires
        same_run(ts1, o1, ts2, o2, n),
        0 <= q <= n,
        term_loop(ts1, atom, o1 + q) matches Some(Ok(_)),
    ensures
        ({
            let (a, p) = term_loop(ts1, atom, o1 + q)->Some_0->Ok_0;
            o1 + q <= p <= o1 + n && term_loop(ts2, atom, o2 + q) == Some(
                Ok::<(SpecAtom, int), Seq<char>>((a, p - o1 + o2)),
            )
        }),
    decreases n - q,
{
    if q < n {
        assert(ts1[o1 + q] == ts2[o2 + q]);
        if ts1[o1 + q] is Star || ts1[o1 + q] is Slash {
            lemma_factor_run(ts1, o1, ts2, o2, n, q + 1);
            let (right, p) = factor_spec(ts1, o1 + q + 1)->Ok_0;
            let div = ts1[o1 + q] is Slash;
            let a2 = combine_spec(atom, right, div)->Some_0->Ok_0;
            lemma_term_loop_run(ts1, o1, ts2, o2, n, a2, p - o1);
        }
    }
}

proof fn lemma_term_run(ts1: Seq<SpecToken>, o1: int, ts2: Seq<SpecToken>, o2: int, n: int, q: int)
    requires
        same_run(ts1, o1, ts2, o2, n),
        0 <= q <= n,
        term_spec(ts1, o1 + q) matches Some(Ok(_)),
    ensures
        ({
            let (a, p) = term_spec(ts1, o1 + q)->Some_0->Ok_0;
            o1 + q < p <= o1 + n && term_spec(ts2, o2 + q) == Some(
                Ok::<(SpecAtom, int), Seq<char>>((a, p - o1 + o2)),
            )
        }),
{
    lemma_factor_run(ts1, o1, ts2, o2, n, q);
    let (a, p) = factor_spec(ts1, o1 + q)->Ok_0;
    lemma_term_loop_run(ts1, o1, ts2, o2, n, a, p - o1);
}

#[verifier::spinoff_prover]
#[verifier::rlimit(100)]
proof fn lemma_expr_loop_run(
    ts1: Seq<SpecToken>,
    o1: int,
    ts2: Seq<SpecToken>,
    o2: int,
    n: int,
    terms: SpecTerms,
    constant: Rational,
    q: int,
)
    requires
        same_run(ts1, o1, ts2, o2, n),
        0 <= q <= n,
        expr_loop(ts1, terms, constant, o1 + q) matches Some(Ok(_)),
    ensures
        ({
            let (t, c, p) = expr_loop(ts1, terms, constant, o1 + q)->Some_0->Ok_0;
            o1 + q <= p <= o1 + n && expr_loop(ts2, terms, constant, o2 + q) == Some(
                Ok::<(SpecTerms, Rational, int), Seq<char>>((t, c, p - o1 + o2)),
            )
        }),
    decreases n - q,
{
    if q < n {
        assert(ts1[o1 + q] == ts2[o2 + q]);
        if ts1[o1 + q] is Plus || ts1[o1 + q] is Minus {
            lemma_term_run(ts1, o1, ts2, o2, n, q + 1);
            let (atom, p) = term_spec(ts1, o1 + q + 1)->Some_0->Ok_0;
            let sign: int = if ts1[o1 + q] is Plus { 1 } else { -1 };
            match atom {
                SpecAtom::Num(x) => {
                    let a = signed(sign, x)->Some_0;
                    let c2 = spec_add(constant, a)->Some_0;
                    lemma_expr_loop_run(ts1, o1, ts2, o2, n, terms, c2, p - o1);
                },
                SpecAtom::VarTerm(v, x) => {
                    let k = signed(sign, x)->Some_0;
                    let old = match assoc_get(terms, v) {
                        Some(y) => y,
                        None => zero_spec(),
                    };
                    let nv = spec_add(old, k)->Some_0;
                    lemma_expr_loop_run(ts1, o1, ts2, o2, n, assoc_put(terms, v, nv), constant, p - o1);
                },
            }
        }
    }
}

/// Parsing an expression reads only the run of tokens up to the next `=`: where it
/// succeeds on one run, it succeeds on the same run anywhere else, with the same
/// result, and stops inside the run.
#[verifier::spinoff_prover]
#[verifier::rlimit(100)]
proof fn lemma_expression_run(ts1: Seq<SpecToken>, o1: int, ts2: Seq<SpecToken>, o2: int, n: int)
    requires
        same_run(ts1, o1, ts2, o2, n),
        expression_spec(ts1, o1) matches Some(Ok(_)),
    ensures
        ({
            let (t, c, p) = expression_spec(ts1, o1)->Some_0->Ok_0;
            o1 <= p <= o1 + n && expression_spec(ts2, o2) == Some(
                Ok::<(SpecTerms, Rational, int), Seq<char>>((t, c, p - o1 + o2)),
            )
        }),
{
    let neg = 0 <= o1 < ts1.len() && ts1[o1] is Minus;
    if n > 0 {
        assert(ts1[o1 + 0] == ts2[o2 + 0]);
    }
    let q: int = if neg { 1 } else { 0 };
    lemma_term_run(ts1, o1, ts2, o2, n, q);
    let (atom, p1) = term_spec(ts1, o1 + q)->Some_0->Ok_0;
    let sign: int = if neg { -1 } else { 1 };
    match atom {
        SpecAtom::Num(x) => {
            let c = signed(sign, x)->Some_0;
            lemma_expr_loop_run(ts1, o1, ts2, o2, n, Seq::empty(), c, p1 - o1);
        },
        SpecAtom::VarTerm(v, x) => {
            let k = signed(sign, x)->Some_0;
            lemma_expr_loop_run(ts1, o1, ts2, o2, n, assoc_put(Seq::empty(), v, k), zero_spec(), p1 - o1);
        },
    }
}

// ---------------------------------------------------------------------------
// Lexing the two sides of an equation
// ---------------------------------------------------------------------------

/// The tokens of a successful first result followed by those of the second.
pub open spec fn join(r1: Result<Seq<SpecToken>, Seq<char>>, r2: Result<Seq<SpecToken>, Seq<char>>) -> Result<
    Seq<SpecToken>,
    Seq<char>,
> {
    match r1 {
        Err(e) => Err(e),
        Ok(a) => glue(a, r2),
    }
}

/// `s` starts with `l` and goes on with a character that ends a number or a name.
pub open spec fn cut_after(s: Seq<char>, l: Seq<char>) -> bool {
    &&& l.len() < s.len()
    &&& forall|k: int| 0 <= k < l.len() ==> #[trigger] s[k] == l[k]
    &&& !is_digit_spec(s[l.len() as int])
    &&& !ident_char(s[l.len() as int])
}

proof fn lemma_runs_prefix(s: Seq<char>, l: Seq<char>, i: int)
    requires
        cut_after(s, l),
        0 <= i <= l.len(),
    ensures
        digit_run_end(s, i) == digit_run_end(l, i),
        ident_run_end(s, i) == ident_run_end(l, i),
        i <= digit_run_end(l, i) <= l.len(),
        i <= ident_run_end(l, i) <= l.len(),
    decreases l.len() - i,
{
    if i < l.len() {
        assert(s[i] == l[i]);
        lemma_runs_prefix(s, l, i + 1);
    }
}

pub(crate) proof fn lemma_lex_prefix(s: Seq<char>, l: Seq<char>, i: int)
    requires
        cut_after(s, l),
        0 <= i <= l.len(),
    ensures
        lex_from(s, i) == join(lex_from(l, i), lex_from(s, l.len() as int)),
    decreases l.len() - i,
{
    let rest = lex_from(s, l.len() as int);
    if i == l.len() {
        if rest is Ok {
            assert(Seq::<SpecToken>::empty() + rest->Ok_0 =~= rest->Ok_0);
        }
    } else {
        let c = s[i];
        assert(s[i] == l[i]);
        lemma_runs_prefix(s, l, i);
        lemma_runs_prefix(s, l, i + 1);
        if char_is_whitespace(c) {
            lemma_lex_prefix(s, l, i + 1);
        } else if c == '+' || c == '-' || c == '*' || c == '/' || c == '=' {
            lemma_lex_prefix(s, l, i + 1);
            let x = lex_from(l, i + 1);
            if x is Ok && rest is Ok {
                let t = lex_from(l, i)->Ok_0[0];
                assert(seq![t] + (x->Ok_0 + rest->Ok_0) =~= (seq![t] + x->Ok_0) + rest->Ok_0);
            }
        } else if is_digit_spec(c) {
            let j = digit_run_end(s, i);
            assert(s.subrange(i, j) =~= l.subrange(i, j));
            if j > i {
                lemma_lex_prefix(s, l, j);
                let x = lex_from(l, j);
                if x is Ok && rest is Ok {
                    let t = SpecToken::Number(digits_value(s.subrange(i, j)) as i128);
                    assert(seq![t] + (x->Ok_0 + rest->Ok_0) =~= (seq![t] + x->Ok_0) + rest->Ok_0);
                }
            }
        } else if char_is_alphabetic(c) {
            let j = ident_run_end(s, i + 1);
            assert(s.subrange(i, j) =~= l.subrange(i, j));
            lemma_lex_prefix(s, l, j);
            let x = lex_from(l, j);
            if x is Ok && rest is Ok {
                let t = SpecToken::Ident(s.subrange(i, j));
                assert(seq![t] + (x->Ok_0 + rest->Ok_0) =~= (seq![t] + x->Ok_0) + rest->Ok_0);
            }
        }
    }
}

proof fn lemma_runs_shift(p: Seq<char>, r: Seq<char>, j: int)
    requires
        0 <= j,
    ensures
        digit_run_end(p + r, p.len() + j) == p.len() + digit_run_end(r, j),
        ident_run_end(p + r, p.len() + j) == p.len() + ident_run_end(r, j),
        j <= digit_run_end(r, j),
        j <= ident_run_end(r, j),
        j <= r.len() ==> digit_run_end(r, j) <= r.len() && ident_run_end(r, j) <= r.len(),
    decreases r.len() - j,
{
    if j < r.len() {
        assert((p + r)[p.len() + j] == r[j]);
        lemma_runs_shift(p, r, j + 1);
    }
}

pub(crate) proof fn lemma_lex_shift(p: Seq<char>, r: Seq<char>, j: int)
    requires
        0 <= j,
    ensures
        lex_from(p + r, p.len() + j) == lex_from(r, j),
    decreases r.len() - j,
{
    let s = p + r;
    if j < r.len() {
        let c = r[j];
        assert(s[p.len() + j] == c);
        lemma_runs_shift(p, r, j);
        lemma_runs_shift(p, r, j + 1);
        if char_is_whitespace(c) || c == '+' || c == '-' || c == '*' || c == '/' || c == '=' {
            lemma_lex_shift(p, r, j + 1);
        } else if is_digit_spec(c) {
            let k = digit_run_end(r, j);
            assert forall|m: int| 0 <= m < k - j implies #[trigger] s.subrange(p.len() + j, p.len() + k)[m] == r.subrange(j, k)[m] by {
                assert(s[p.len() + j + m] == r[j + m]);
            }
            assert(s.subrange(p.len() + j, p.len() + k) =~= r.subrange(j, k));
            if k > j {
                lemma_lex_shift(p, r, k);
            }
        } else if char_is_alphabetic(c) {
            let k = ident_run_end(r, j + 1);
            assert forall|m: int| 0 <= m < k - j implies #[trigger] s.subrange(p.len() + j, p.len() + k)[m] == r.subrange(j, k)[m] by {
                assert(s[p.len() + j + m] == r[j + m]);
            }
            assert(s.subrange(p.len() + j, p.len() + k) =~= r.subrange(j, k));
            if k > j {
                lemma_lex_shift(p, r, k);
            }
        }
    }
}

/// Text without `=` lexes to tokens without `=`.
proof fn lemma_lex_no_equals(l: Seq<char>, i: int)
    requires
        forall|k: int| 0 <= k < l.len() ==> l[k] != '=',
    ensures
        lex_from(l, i) matches Ok(ts) ==> forall|k: int| 0 <= k < ts.len() ==> !(#[trigger] ts[k] is Equals),
    decreases l.len() - i,
{
    if 0 <= i < l.len() {
        let c = l[i];
        lemma_lex_no_equals(l, i + 1);
        if is_digit_spec(c) {
            let j = digit_run_end(l, i);
            if i < j <= l.len() {
                lemma_lex_no_equals(l, j);
            }
        } else if char_is_alphabetic(c) {
            let j = ident_run_end(l, i + 1);
            if i < j <= l.len() {
                lemma_lex_no_equals(l, j);
            }
        }
        if lex_from(l, i) is Ok {
            let ts = lex_from(l, i)->Ok_0;
            assert forall|k: int| 0 <= k < ts.len() implies !(#[trigger] ts[k] is Equals) by {
                if !char_is_whitespace(c) && k > 0 {
                    assert(ts[k] == ts.drop_first()[k - 1]);
                }
            }
        }
    }
}

/// The tokens of `l = r` are those of `l`, then `=`, then those of `r`.
proof fn lemma_lex_equation(l: Seq<char>, r: Seq<char>)
    ensures
        lex(l + " = "@ + r) == join(lex(l), prepend(SpecToken::Equals, lex(r))),
{
    reveal_strlit(" = ");
    let p = l + " = "@;
    let s = p + r;
    assert(s[l.len() as int] == ' ');
    assert(s[l.len() as int + 1] == '=');
    assert(s[l.len() as int + 2] == ' ');
    assert(cut_after(s, l)) by {
        assert forall|k: int| 0 <= k < l.len() implies #[trigger] s[k] == l[k] by {}
        assert(' ' as u32 == 32);
    }
    lemma_lex_prefix(s, l, 0);
    lemma_lex_shift(p, r, 0);
    assert(p.len() == l.len() + 3);
    assert(lex_from(s, l.len() as int + 3) == lex_from(r, 0));
    assert(char_is_whitespace(' '));
    assert(lex_from(s, l.len() as int + 2) == lex_from(s, l.len() as int + 3));
    assert(lex_from(s, l.len() as int + 1) == prepend(SpecToken::Equals, lex_from(s, l.len() as int + 2)));
    assert(lex_from(s, l.len() as int) == lex_from(s, l.len() as int + 1));
    assert(s =~= l + " = "@ + r);
}

// ---------------------------------------------------------------------------
// The law
// ---------------------------------------------------------------------------

/// Swapping the two sides of an equation negates its normal form: where neither
/// side holds `=` and the line `l = r` is brought into the form `sum(c_v * v) = k`,
/// the line `r = l` is brought into the form with the same names, in the same
/// order, each coefficient negated, and the constant negated.
#[verifier::spinoff_prover]
#[verifier::rlimit(100)]
pub proof fn law_swapping_sides_negates(l: Seq<char>, r: Seq<char>)
    requires
        forall|i: int| 0 <= i < l.len() ==> l[i] != '=',
        forall|i: int| 0 <= i < r.len() ==> r[i] != '=',
    ensures
        equation_spec(l + " = "@ + r) matches Some(Ok((t, k))) ==> equation_spec(r + " = "@ + l)
            matches Some(Ok((t2, k2))) && negated_terms(t, t2) && k2.num == -k.num && k2.den == k.den,
{
    let s1 = l + " = "@ + r;
    let s2 = r + " = "@ + l;
    if equation_spec(s1) is Some && equation_spec(s1)->Some_0 is Ok {
        lemma_lex_equation(l, r);
        lemma_lex_equation(r, l);
        lemma_lex_no_equals(l, 0);
        lemma_lex_no_equals(r, 0);
        let a = lex(l)->Ok_0;
        let b = lex(r)->Ok_0;
        let ts1 = lex(s1)->Ok_0;
        let ts2 = lex(s2)->Ok_0;
        assert(ts1 =~= a + seq![SpecToken::Equals] + b);
        assert(ts2 =~= b + seq![SpecToken::Equals] + a);
        let na = a.len() as int;
        let nb = b.len() as int;
        // the left side of `l = r` is the right side of `r = l`
        assert(same_run(ts1, 0, ts2, nb + 1, na)) by {
            assert forall|i: int| 0 <= i < na implies #[trigger] ts1[0 + i] == ts2[nb + 1 + i]
                && !(ts1[0 + i] is Equals) by {
                assert(ts1[i] == a[i]);
                assert(ts2[nb + 1 + i] == a[i]);
            }
            assert(ts1[na] == SpecToken::Equals);
        }
        lemma_expression_run(ts1, 0, ts2, nb + 1, na);
        let (lt, lc, p) = expression_spec(ts1, 0)->Some_0->Ok_0;
        if p < na {
            assert(ts1[p] == a[p]);
        }
        assert(p == na);
        // the right side of `l = r` is the left side of `r = l`
        assert(same_run(ts1, na + 1, ts2, 0, nb)) by {
            assert forall|i: int| 0 <= i < nb implies #[trigger] ts1[na + 1 + i] == ts2[0 + i]
                && !(ts1[na + 1 + i] is Equals) by {
                assert(ts1[na + 1 + i] == b[i]);
                assert(ts2[i] == b[i]);
            }
            assert(ts2[nb] == SpecToken::Equals);
        }
        lemma_expression_run(ts1, na + 1, ts2, 0, nb);
        let (rt, rc, p2) = expression_spec(ts1, na + 1)->Some_0->Ok_0;
        assert(p2 == ts1.len());
        assert(expression_spec(ts2, 0) == Some(Ok::<(SpecTerms, Rational, int), Seq<char>>((rt, rc, nb))));
        assert(expression_spec(ts2, nb + 1) == Some(Ok::<(SpecTerms, Rational, int), Seq<char>>((lt, lc, ts2.len() as int))));
        lemma_expression_sorted(ts1, 0);
        lemma_expression_sorted(ts1, na + 1);
        lemma_normal_form_swap(lt, lc, rt, rc);
    }
}

} // verus!
