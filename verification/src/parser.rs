use vstd::prelude::*;
use crate::lexer::{lex, token_debug, token_debug_string, tokenize, tokens_view, SpecToken, Token};
use crate::names::{
    assoc_get, assoc_lookup, assoc_put, assoc_store, entries_view, lemma_assoc_put_sorted,
    lemma_assoc_put_values, sorted_keys,
};
use crate::rational::{
    lemma_make, make, one_spec, spec_add, spec_div, spec_mul, spec_sub, wf, zero_spec, Rational,
};
use crate::text::push_str;

verus! {

/// A linear equation brought into the form `sum(coeff * var) = constant`: the
/// variables with a non-zero coefficient, sorted by name, and the constant.
#[derive(Debug)]
pub struct NormalizedEquation {
    pub terms: Vec<(String, Rational)>,
    pub constant: Rational,
}

/// Coefficients by variable name, sorted by name.
pub type SpecTerms = Seq<(Seq<char>, Rational)>;

impl View for NormalizedEquation {
    type V = (SpecTerms, Rational);

    open spec fn view(&self) -> (SpecTerms, Rational) {
        (entries_view(self.terms@), self.constant)
    }
}

/// A factor or product of factors: a number, or a number times one variable.
pub enum Atom {
    Num(Rational),
    VarTerm(String, Rational),
}

pub enum SpecAtom {
    Num(Rational),
    VarTerm(Seq<char>, Rational),
}

impl View for Atom {
    type V = SpecAtom;

    open spec fn view(&self) -> SpecAtom {
        match self {
            Atom::Num(r) => SpecAtom::Num(*r),
            Atom::VarTerm(v, r) => SpecAtom::VarTerm(v@, *r),
        }
    }
}

// ---------------------------------------------------------------------------
// Messages
// ---------------------------------------------------------------------------

pub open spec fn msg_end() -> Seq<char> {
    "Unerwartetes Ende des Ausdrucks"@
}

pub open spec fn msg_expected(t: SpecToken) -> Seq<char> {
    "Zahl oder Variable erwartet, erhalten: "@ + token_debug(t)
}

pub open spec fn msg_nonlinear(div: bool) -> Seq<char> {
    if div {
        "Nicht-linearer Term: Variable geteilt durch Variable"@
    } else {
        "Nicht-linearer Term: Variable multipliziert mit Variable"@
    }
}

pub open spec fn msg_equals_expected() -> Seq<char> {
    "'=' in der Gleichung erwartet"@
}

pub open spec fn msg_trailing(t: SpecToken) -> Seq<char> {
    "Unerwartetes Token nach Gleichung: "@ + token_debug(t)
}

// ---------------------------------------------------------------------------
// The grammar, over tokens
// ---------------------------------------------------------------------------

/// factor := NUMBER IDENT? | IDENT. Gives the atom and the position after it.
pub open spec fn factor_spec(ts: Seq<SpecToken>, pos: int) -> Result<(SpecAtom, int), Seq<char>> {
    if pos < 0 || pos >= ts.len() {
        Err(msg_end())
    } else {
        match ts[pos] {
            SpecToken::Number(n) => {
                let c = Rational { num: n, den: 1 };
                if pos + 1 < ts.len() && ts[pos + 1] is Ident {
                    Ok((SpecAtom::VarTerm(ts[pos + 1]->Ident_0, c), pos + 2))
                } else {
                    Ok((SpecAtom::Num(c), pos + 1))
                }
            },
            SpecToken::Ident(name) => Ok((SpecAtom::VarTerm(name, one_spec()), pos + 1)),
            _ => Err(msg_expected(ts[pos])),
        }
    }
}

/// Multiplies (`div == false`) or divides two atoms; `None` where the arithmetic
/// overflows or divides by zero.
pub open spec fn combine_spec(a: SpecAtom, b: SpecAtom, div: bool) -> Option<
    Result<SpecAtom, Seq<char>>,
> {
    let op = |x: Rational, y: Rational|
        if div {
            spec_div(x, y)
        } else {
            spec_mul(x, y)
        };
    match a {
        SpecAtom::Num(x) => match b {
            SpecAtom::Num(y) => match op(x, y) {
                Some(r) => Some(Ok(SpecAtom::Num(r))),
                None => None,
            },
            SpecAtom::VarTerm(v, y) => match op(x, y) {
                Some(r) => Some(Ok(SpecAtom::VarTerm(v, r))),
                None => None,
            },
        },
        SpecAtom::VarTerm(v, x) => match b {
            SpecAtom::Num(y) => match op(x, y) {
                Some(r) => Some(Ok(SpecAtom::VarTerm(v, r))),
                None => None,
            },
            SpecAtom::VarTerm(_, _) => Some(Err(msg_nonlinear(div))),
        },
    }
}

/// The rest of a term after `atom`: `(('*' | '/') factor)*`.
pub open spec fn term_loop(ts: Seq<SpecToken>, atom: SpecAtom, pos: int) -> Option<
    Result<(SpecAtom, int), Seq<char>>,
>
    decreases ts.len() - pos,
{
    if pos < 0 || pos >= ts.len() || !(ts[pos] is Star || ts[pos] is Slash) {
        Some(Ok((atom, pos)))
    } else {
        let div = ts[pos] is Slash;
        match factor_spec(ts, pos + 1) {
            Err(e) => Some(Err(e)),
            Ok((right, p)) => match combine_spec(atom, right, div) {
                None => None,
                Some(Err(e)) => Some(Err(e)),
                Some(Ok(a2)) => if pos < p <= ts.len() {
                    term_loop(ts, a2, p)
                } else {
                    Some(Ok((a2, p)))
                },
            },
        }
    }
}

/// term := factor (('*' | '/') factor)*.
pub open spec fn term_spec(ts: Seq<SpecToken>, pos: int) -> Option<Result<(SpecAtom, int), Seq<char>>> {
    match factor_spec(ts, pos) {
        Err(e) => Some(Err(e)),
        Ok((a, p)) => term_loop(ts, a, p),
    }
}

/// `sign * x`, reduced (the sign of a term applied to its coefficient).
pub open spec fn signed(sign: int, x: Rational) -> Option<Rational> {
    make(sign * x.num, x.den as int)
}

/// The rest of an expression: `(('+' | '-') term)*`, adding numbers to the constant
/// and coefficients to their variable.
pub open spec fn expr_loop(ts: Seq<SpecToken>, terms: SpecTerms, constant: Rational, pos: int) -> Option<
    Result<(SpecTerms, Rational, int), Seq<char>>,
>
    decreases ts.len() - pos,
{
    if pos < 0 || pos >= ts.len() || !(ts[pos] is Plus || ts[pos] is Minus) {
        Some(Ok((terms, constant, pos)))
    } else {
        let sign: int = if ts[pos] is Plus {
            1
        } else {
            -1
        };
        match term_spec(ts, pos + 1) {
            None => None,
            Some(Err(e)) => Some(Err(e)),
            Some(Ok((atom, p))) => if !(pos < p <= ts.len()) {
                Some(Ok((terms, constant, p)))
            } else {
                match atom {
                    SpecAtom::Num(n) => match signed(sign, n) {
                        None => None,
                        Some(a) => match spec_add(constant, a) {
                            None => None,
                            Some(c2) => expr_loop(ts, terms, c2, p),
                        },
                    },
                    SpecAtom::VarTerm(v, c) => match signed(sign, c) {
                        None => None,
                        Some(k) => {
                            let old = match assoc_get(terms, v) {
                                Some(x) => x,
                                None => zero_spec(),
                            };
                            match spec_add(old, k) {
                                None => None,
                                Some(nv) => expr_loop(ts, assoc_put(terms, v, nv), constant, p),
                            }
                        },
                    },
                }
            },
        }
    }
}

/// expression := '-'? term (('+' | '-') term)*. Gives the coefficients by variable,
/// the constant and the position after the expression.
pub open spec fn expression_spec(ts: Seq<SpecToken>, pos: int) -> Option<
    Result<(SpecTerms, Rational, int), Seq<char>>,
> {
    let neg = 0 <= pos < ts.len() && ts[pos] is Minus;
    let sign: int = if neg {
        -1
    } else {
        1
    };
    let p0 = if neg {
        pos + 1
    } else {
        pos
    };
    match term_spec(ts, p0) {
        None => None,
        Some(Err(e)) => Some(Err(e)),
        Some(Ok((atom, p1))) => match atom {
            SpecAtom::Num(n) => match signed(sign, n) {
                None => None,
                Some(c) => expr_loop(ts, Seq::empty(), c, p1),
            },
            SpecAtom::VarTerm(v, c) => match signed(sign, c) {
                None => None,
                Some(k) => expr_loop(ts, assoc_put(Seq::empty(), v, k), zero_spec(), p1),
            },
        },
    }
}

/// Subtracts the coefficients of `rt` from those of `acc`, in the order of `rt`.
pub open spec fn merge_sub(acc: SpecTerms, rt: SpecTerms) -> Option<SpecTerms>
    decreases rt.len(),
{
    if rt.len() == 0 {
        Some(acc)
    } else {
        match merge_sub(acc, rt.drop_last()) {
            None => None,
            Some(a) => {
                let (var, coeff) = rt.last();
                let e = match assoc_get(a, var) {
                    Some(x) => x,
                    None => zero_spec(),
                };
                match spec_sub(e, coeff) {
                    None => None,
                    Some(nv) => Some(assoc_put(a, var, nv)),
                }
            },
        }
    }
}

/// The entries with a non-zero coefficient.
pub open spec fn drop_zero_terms(s: SpecTerms) -> SpecTerms
    decreases s.len(),
{
    if s.len() == 0 {
        s
    } else if s.last().1.num == 0 {
        drop_zero_terms(s.drop_last())
    } else {
        drop_zero_terms(s.drop_last()).push(s.last())
    }
}

/// The normalized form of an equation `lhs = rhs`: all variables moved to the left
/// (coefficients of the left minus those of the right, zero ones dropped), the
/// constants to the right (`rhs constant - lhs constant`). `Some(Err(message))` for
/// text that is not such an equation; `None` where the arithmetic overflows `i128`
/// or divides by zero.
pub open spec fn equation_spec(s: Seq<char>) -> Option<Result<(SpecTerms, Rational), Seq<char>>> {
    match lex(s) {
        Err(e) => Some(Err(e)),
        Ok(ts) => match expression_spec(ts, 0) {
            None => None,
            Some(Err(e)) => Some(Err(e)),
            Some(Ok((lt, lc, p))) => if p < 0 || p >= ts.len() || !(ts[p] is Equals) {
                Some(Err(msg_equals_expected()))
            } else {
                match expression_spec(ts, p + 1) {
                    None => None,
                    Some(Err(e)) => Some(Err(e)),
                    Some(Ok((rt, rc, p2))) => if 0 <= p2 < ts.len() {
                        Some(Err(msg_trailing(ts[p2])))
                    } else {
                        match merge_sub(lt, rt) {
                            None => None,
                            Some(all) => match spec_sub(rc, lc) {
                                None => None,
                                Some(c) => Some(Ok((drop_zero_terms(all), c))),
                            },
                        }
                    },
                }
            },
        },
    }
}

// ---------------------------------------------------------------------------
// Facts used by the executable parser
// ---------------------------------------------------------------------------

pub proof fn lemma_factor_advances(ts: Seq<SpecToken>, pos: int)
    ensures
        factor_spec(ts, pos) matches Ok((a, p)) ==> pos < p <= ts.len(),
{
}

pub proof fn lemma_term_advances(ts: Seq<SpecToken>, pos: int)
    ensures
        term_spec(ts, pos) matches Some(Ok((a, p))) ==> pos < p <= ts.len(),
{
    lemma_factor_advances(ts, pos);
    match factor_spec(ts, pos) {
        Ok((a, p)) => {
            lemma_term_loop_advances(ts, a, p);
        },
        Err(_) => {},
    }
}

proof fn lemma_term_loop_advances(ts: Seq<SpecToken>, atom: SpecAtom, pos: int)
    requires
        pos <= ts.len(),
    ensures
        term_loop(ts, atom, pos) matches Some(Ok((a, p))) ==> pos <= p <= ts.len(),
    decreases ts.len() - pos,
{
    if pos < 0 || pos >= ts.len() || !(ts[pos] is Star || ts[pos] is Slash) {
    } else {
        lemma_factor_advances(ts, pos + 1);
        let div = ts[pos] is Slash;
        match factor_spec(ts, pos + 1) {
            Ok((right, p)) => match combine_spec(atom, right, div) {
                Some(Ok(a2)) => {
                    lemma_term_loop_advances(ts, a2, p);
                },
                _ => {},
            },
            Err(_) => {},
        }
    }
}

/// Every coefficient is in lowest terms.
pub open spec fn all_wf(t: SpecTerms) -> bool {
    forall|i: int| 0 <= i < t.len() ==> wf(#[trigger] t[i].1) && t[i].1.num != i128::MIN
}

pub(crate) proof fn lemma_put_all_wf(t: SpecTerms, v: Seq<char>, x: Rational)
    requires
        all_wf(t),
        wf(x),
        x.num != i128::MIN,
    ensures
        all_wf(assoc_put(t, v, x)),
{
    lemma_assoc_put_values(t, v, x);
    let r = assoc_put(t, v, x);
    assert forall|i: int| 0 <= i < r.len() implies wf(#[trigger] r[i].1) && r[i].1.num != i128::MIN by {
        if r[i].1 != x {
            let k = choose|k: int| 0 <= k < t.len() && t[k].1 == r[i].1;
            assert(wf(t[k].1));
        }
    }
}

pub proof fn lemma_zero_wf()
    ensures
        wf(zero_spec()),
{
    assert(crate::number_theory::gcd(0, 1) == crate::number_theory::gcd(1, 0));
}

pub proof fn lemma_expr_loop_sorted(ts: Seq<SpecToken>, terms: SpecTerms, constant: Rational, pos: int)
    requires
        sorted_keys(terms),
        all_wf(terms),
        wf(constant),
    ensures
        expr_loop(ts, terms, constant, pos) matches Some(Ok((t, c, p))) ==> sorted_keys(t) && all_wf(t) && wf(c),
    decreases ts.len() - pos,
{
    if pos < 0 || pos >= ts.len() || !(ts[pos] is Plus || ts[pos] is Minus) {
    } else {
        let sign: int = if ts[pos] is Plus {
            1
        } else {
            -1
        };
        match term_spec(ts, pos + 1) {
            Some(Ok((atom, p))) => if pos < p <= ts.len() {
                match atom {
                    SpecAtom::Num(n) => match signed(sign, n) {
                        Some(a) => match spec_add(constant, a) {
                            Some(c2) => {
                                lemma_make(constant.num * a.den + a.num * constant.den, constant.den * a.den);
                                lemma_expr_loop_sorted(ts, terms, c2, p);
                            },
                            None => {},
                        },
                        None => {},
                    },
                    SpecAtom::VarTerm(v, c) => match signed(sign, c) {
                        Some(k) => {
                            let old = match assoc_get(terms, v) {
                                Some(x) => x,
                                None => zero_spec(),
                            };
                            match spec_add(old, k) {
                                Some(nv) => {
                                    lemma_make(old.num * k.den + k.num * old.den, old.den * k.den);
                                    lemma_assoc_put_sorted(terms, v, nv);
                                    lemma_put_all_wf(terms, v, nv);
                                    lemma_expr_loop_sorted(ts, assoc_put(terms, v, nv), constant, p);
                                },
                                None => {},
                            }
                        },
                        None => {},
                    },
                }
            },
            _ => {},
        }
    }
}

pub proof fn lemma_expression_sorted(ts: Seq<SpecToken>, pos: int)
    ensures
        expression_spec(ts, pos) matches Some(Ok((t, c, p))) ==> sorted_keys(t) && all_wf(t) && wf(c),
{
    lemma_zero_wf();
    let neg = 0 <= pos < ts.len() && ts[pos] is Minus;
    let sign: int = if neg {
        -1
    } else {
        1
    };
    let p0 = if neg {
        pos + 1
    } else {
        pos
    };
    match term_spec(ts, p0) {
        Some(Ok((atom, p1))) => match atom {
            SpecAtom::Num(n) => match signed(sign, n) {
                Some(c) => {
                    lemma_make(sign * n.num, n.den as int);
                    lemma_expr_loop_sorted(ts, Seq::empty(), c, p1);
                },
                None => {},
            },
            SpecAtom::VarTerm(v, c) => match signed(sign, c) {
                Some(k) => {
                    lemma_make(sign * c.num, c.den as int);
                    lemma_assoc_put_sorted(Seq::<(Seq<char>, Rational)>::empty(), v, k);
                    lemma_put_all_wf(Seq::<(Seq<char>, Rational)>::empty(), v, k);
                    lemma_expr_loop_sorted(ts, assoc_put(Seq::empty(), v, k), zero_spec(), p1);
                },
                None => {},
            },
        },
        _ => {},
    }
}

pub proof fn lemma_merge_sub_sorted(acc: SpecTerms, rt: SpecTerms)
    requires
        sorted_keys(acc),
        all_wf(acc),
    ensures
        merge_sub(acc, rt) matches Some(a) ==> sorted_keys(a) && all_wf(a),
    decreases rt.len(),
{
    if rt.len() > 0 {
        lemma_merge_sub_sorted(acc, rt.drop_last());
        match merge_sub(acc, rt.drop_last()) {
            Some(a) => {
                let (var, coeff) = rt.last();
                let e = match assoc_get(a, var) {
                    Some(x) => x,
                    None => zero_spec(),
                };
                match spec_sub(e, coeff) {
                    Some(nv) => {
                        lemma_make(e.num * coeff.den - coeff.num * e.den, e.den * coeff.den);
                        lemma_assoc_put_sorted(a, var, nv);
                        lemma_put_all_wf(a, var, nv);
                    },
                    None => {},
                }
            },
            None => {},
        }
    }
}

/// Dropping entries keeps the order and keeps only non-zero coefficients.
pub proof fn lemma_drop_zero_terms(s: SpecTerms)
    ensures
        sorted_keys(s) ==> sorted_keys(drop_zero_terms(s)),
        forall|i: int| 0 <= i < drop_zero_terms(s).len() ==> #[trigger] drop_zero_terms(s)[i].1.num != 0,
        forall|i: int|
            0 <= i < drop_zero_terms(s).len() ==> s.contains(#[trigger] drop_zero_terms(s)[i]),
    decreases s.len(),
{
    if s.len() > 0 {
        let t = s.drop_last();
        lemma_drop_zero_terms(t);
        let dt = drop_zero_terms(t);
        assert forall|i: int| 0 <= i < dt.len() implies s.contains(#[trigger] dt[i]) by {
            let k = choose|k: int| 0 <= k < t.len() && t[k] == dt[i];
            assert(s[k] == t[k]);
        }
        if s.last().1.num != 0 {
            let r = dt.push(s.last());
            assert(s[s.len() - 1] == s.last());
            if sorted_keys(s) {
                assert(sorted_keys(t)) by {
                    assert forall|i: int, j: int| 0 <= i < j < t.len() implies crate::names::name_lt(
                        #[trigger] t[i].0,
                        #[trigger] t[j].0,
                    ) by {
                        assert(t[i] == s[i] && t[j] == s[j]);
                    }
                }
                assert forall|i: int, j: int| 0 <= i < j < r.len() implies crate::names::name_lt(
                    #[trigger] r[i].0,
                    #[trigger] r[j].0,
                ) by {
                    if j == r.len() - 1 {
                        let k = choose|k: int| 0 <= k < t.len() && t[k] == dt[i];
                        assert(s[k] == t[k]);
                        assert(r[i] == dt[i]);
                    } else {
                        assert(r[i] == dt[i] && r[j] == dt[j]);
                    }
                }
            }
            assert forall|i: int| 0 <= i < r.len() implies s.contains(#[trigger] r[i]) by {
                if i < dt.len() {
                    assert(r[i] == dt[i]);
                }
            }
            assert forall|i: int| 0 <= i < r.len() implies #[trigger] r[i].1.num != 0 by {
                if i < dt.len() {
                    assert(r[i] == dt[i]);
                }
            }
        } else {
            if sorted_keys(s) {
                assert(sorted_keys(t)) by {
                    assert forall|i: int, j: int| 0 <= i < j < t.len() implies crate::names::name_lt(
                        #[trigger] t[i].0,
                        #[trigger] t[j].0,
                    ) by {
                        assert(t[i] == s[i] && t[j] == s[j]);
                    }
                }
            }
        }
    }
}

/// A normalized equation lists its variables sorted by name, each once, with a
/// non-zero coefficient in lowest terms, and its constant in lowest terms.
pub proof fn law_normalized_equation_shape(s: Seq<char>)
    ensures
        equation_spec(s) matches Some(Ok((t, c))) ==> {
            &&& sorted_keys(t)
            &&& forall|i: int| 0 <= i < t.len() ==> (#[trigger] t[i]).1.num != 0 && wf(t[i].1)
            &&& wf(c)
        },
{
    match lex(s) {
        Ok(ts) => {
            lemma_expression_sorted(ts, 0);
            match expression_spec(ts, 0) {
                Some(Ok((lt, lc, p))) => {
                    if !(p < 0 || p >= ts.len() || !(ts[p] is Equals)) {
                        lemma_expression_sorted(ts, p + 1);
                        match expression_spec(ts, p + 1) {
                            Some(Ok((rt, rc, p2))) => {
                                lemma_merge_sub_sorted(lt, rt);
                                match merge_sub(lt, rt) {
                                    Some(all) => {
                                        lemma_drop_zero_terms(all);
                                        lemma_make(rc.num * lc.den - lc.num * rc.den, rc.den * lc.den);
                                        let t = drop_zero_terms(all);
                                        assert forall|i: int| 0 <= i < t.len() implies (#[trigger] t[i]).1.num != 0 && wf(t[i].1) by {
                                            assert(all.contains(t[i]));
                                            let k = choose|k: int| 0 <= k < all.len() && all[k] == t[i];
                                            assert(wf(all[k].1));
                                        }
                                    },
                                    None => {},
                                }
                            },
                            _ => {},
                        }
                    }
                },
                _ => {},
            }
        },
        Err(_) => {},
    }
}

// ---------------------------------------------------------------------------
// The executable parser
// ---------------------------------------------------------------------------

/// Parses one factor at `*pos`, advancing `*pos` past it.
fn parse_factor(tokens: &Vec<Token>, pos: &mut usize) -> (r: Result<Atom, String>)
    ensures
        match factor_spec(tokens_view(tokens@), *old(pos) as int) {
            Ok((a, p)) => r matches Ok(x) && x@ == a && *final(pos) as int == p,
            Err(e) => r matches Err(m) && m@ == e && *final(pos) == *old(pos),
        },
{
    let ghost ts = tokens_view(tokens@);
    if *pos >= tokens.len() {
        return Err(String::from_str("Unerwartetes Ende des Ausdrucks"));
    }
    assert(ts[*pos as int] == tokens@[*pos as int]@);
    match &tokens[*pos] {
        Token::Number(n) => {
            let num = *n;
            *pos = *pos + 1;
            if *pos < tokens.len() {
                assert(ts[*pos as int] == tokens@[*pos as int]@);
                match &tokens[*pos] {
                    Token::Ident(name) => {
                        let nm = name.clone();
                        *pos = *pos + 1;
                        return Ok(Atom::VarTerm(nm, Rational::from_int(num)));
                    },
                    _ => {},
                }
            }
            Ok(Atom::Num(Rational::from_int(num)))
        },
        Token::Ident(name) => {
            let nm = name.clone();
            *pos = *pos + 1;
            Ok(Atom::VarTerm(nm, Rational::one()))
        },
        t => {
            let mut msg = String::from_str("Zahl oder Variable erwartet, erhalten: ");
            let d = token_debug_string(t);
            push_str(&mut msg, d.as_str());
            Err(msg)
        },
    }
}

/// Multiplies or divides two atoms.
fn combine(atom: Atom, right: Atom, div: bool) -> (r: Option<Result<Atom, String>>)
    ensures
        match combine_spec(atom@, right@, div) {
            None => r is None,
            Some(Err(e)) => r matches Some(Err(m)) && m@ == e,
            Some(Ok(a)) => r matches Some(Ok(x)) && x@ == a,
        },
{
    match atom {
        Atom::Num(x) => match right {
            Atom::Num(y) => {
                let v = if div {
                    x.checked_div(y)
                } else {
                    x.checked_mul(y)
                };
                match v {
                    Some(r) => Some(Ok(Atom::Num(r))),
                    None => None,
                }
            },
            Atom::VarTerm(name, y) => {
                let v = if div {
                    x.checked_div(y)
                } else {
                    x.checked_mul(y)
                };
                match v {
                    Some(r) => Some(Ok(Atom::VarTerm(name, r))),
                    None => None,
                }
            },
        },
        Atom::VarTerm(name, x) => match right {
            Atom::Num(y) => {
                let v = if div {
                    x.checked_div(y)
                } else {
                    x.checked_mul(y)
                };
                match v {
                    Some(r) => Some(Ok(Atom::VarTerm(name, r))),
                    None => None,
                }
            },
            Atom::VarTerm(_, _) => {
                if div {
                    Some(Err(String::from_str("Nicht-linearer Term: Variable geteilt durch Variable")))
                } else {
                    Some(
                        Err(
                            String::from_str(
                                "Nicht-linearer Term: Variable multipliziert mit Variable",
                            ),
                        ),
                    )
                }
            },
        },
    }
}

/// Parses one term at `*pos`, advancing `*pos` past it; `None` on overflow or
/// division by zero.
fn parse_term(tokens: &Vec<Token>, pos: &mut usize) -> (r: Option<Result<Atom, String>>)
    ensures
        match term_spec(tokens_view(tokens@), *old(pos) as int) {
            None => r is None,
            Some(Err(e)) => r matches Some(Err(m)) && m@ == e,
            Some(Ok((a, p))) => r matches Some(Ok(x)) && x@ == a && *final(pos) as int == p,
        },
{
    let ghost ts = tokens_view(tokens@);
    let ghost start = *pos as int;
    let mut atom = match parse_factor(tokens, pos) {
        Ok(a) => a,
        Err(e) => return Some(Err(e)),
    };
    proof {
        lemma_factor_advances(ts, start);
    }
    loop
        invariant
            ts == tokens_view(tokens@),
            start == *old(pos) as int,
            *pos <= tokens.len(),
            term_spec(ts, start) == term_loop(ts, atom@, *pos as int),
        ensures
            term_spec(ts, start) == Some(Ok::<(SpecAtom, int), Seq<char>>((atom@, *pos as int))),
        decreases tokens.len() - *pos,
    {
        if *pos >= tokens.len() {
            break;
        }
        assert(ts[*pos as int] == tokens@[*pos as int]@);
        let kind: u8 = match &tokens[*pos] {
            Token::Star => 1,
            Token::Slash => 2,
            _ => 0,
        };
        if kind == 0 {
            break;
        }
        let div = kind == 2;
        let ghost here = *pos as int;
        *pos = *pos + 1;
        let right = match parse_factor(tokens, pos) {
            Ok(a) => a,
            Err(e) => return Some(Err(e)),
        };
        proof {
            lemma_factor_advances(ts, here + 1);
        }
        match combine(atom, right, div) {
            None => return None,
            Some(Err(e)) => return Some(Err(e)),
            Some(Ok(a2)) => {
                atom = a2;
            },
        }
    }
    Some(Ok(atom))
}

/// `sign * x`, reduced.
fn apply_sign(negative: bool, x: Rational) -> (r: Option<Rational>)
    ensures
        r == signed(
            if negative {
                -1
            } else {
                1
            },
            x,
        ),
{
    let n = if negative {
        x.num.checked_mul(-1)
    } else {
        x.num.checked_mul(1)
    };
    match n {
        Some(v) => Rational::try_new(v, x.den),
        None => None,
    }
}

/// Parses one expression at `*pos`, advancing `*pos` past it; `None` on overflow or
/// division by zero.
fn parse_expression(tokens: &Vec<Token>, pos: &mut usize) -> (r: Option<
    Result<(Vec<(String, Rational)>, Rational), String>,
>)
    ensures
        match expression_spec(tokens_view(tokens@), *old(pos) as int) {
            None => r is None,
            Some(Err(e)) => r matches Some(Err(m)) && m@ == e,
            Some(Ok((t, c, p))) => r matches Some(Ok(x)) && entries_view(x.0@) == t && x.1 == c
                && *final(pos) as int == p,
        },
{
    let ghost ts = tokens_view(tokens@);
    let ghost start = *pos as int;
    let mut terms: Vec<(String, Rational)> = Vec::new();
    let mut constant = Rational::zero();
    let mut negative = false;
    if *pos < tokens.len() {
        assert(ts[*pos as int] == tokens@[*pos as int]@);
        match &tokens[*pos] {
            Token::Minus => {
                negative = true;
                *pos = *pos + 1;
            },
            _ => {},
        }
    }
    let ghost p0 = *pos as int;
    let atom = match parse_term(tokens, pos) {
        None => return None,
        Some(Err(e)) => return Some(Err(e)),
        Some(Ok(a)) => a,
    };
    proof {
        lemma_term_advances(ts, p0);
        assert(negative == (0 <= start < ts.len() && ts[start] is Minus));
        assert(p0 == if negative { start + 1 } else { start });
    }
    match atom {
        Atom::Num(n) => {
            match apply_sign(negative, n) {
                None => return None,
                Some(c) => {
                    constant = c;
                    assert(entries_view(terms@) =~= Seq::<(Seq<char>, Rational)>::empty());
                },
            }
        },
        Atom::VarTerm(v, c) => {
            match apply_sign(negative, c) {
                None => return None,
                Some(k) => {
                    assert(entries_view(terms@) =~= Seq::<(Seq<char>, Rational)>::empty());
                    assoc_store(&mut terms, v, k);
                },
            }
        },
    }
    proof {
        assert(sorted_keys(entries_view(terms@)));
    }
    loop
        invariant
            ts == tokens_view(tokens@),
            start == *old(pos) as int,
            *pos <= tokens.len(),
            sorted_keys(entries_view(terms@)),
            expression_spec(ts, start) == expr_loop(ts, entries_view(terms@), constant, *pos as int),
        ensures
            expression_spec(ts, start) == Some(
                Ok::<(SpecTerms, Rational, int), Seq<char>>(
                    (entries_view(terms@), constant, *pos as int),
                ),
            ),
        decreases tokens.len() - *pos,
    {
        if *pos >= tokens.len() {
            break;
        }
        assert(ts[*pos as int] == tokens@[*pos as int]@);
        let kind: u8 = match &tokens[*pos] {
            Token::Plus => 1,
            Token::Minus => 2,
            _ => 0,
        };
        if kind == 0 {
            break;
        }
        let ghost here = *pos as int;
        *pos = *pos + 1;
        let atom = match parse_term(tokens, pos) {
            None => return None,
            Some(Err(e)) => return Some(Err(e)),
            Some(Ok(a)) => a,
        };
        proof {
            lemma_term_advances(ts, here + 1);
        }
        match atom {
            Atom::Num(n) => {
                let a = match apply_sign(kind == 2, n) {
                    None => return None,
                    Some(a) => a,
                };
                constant = match constant.checked_add(a) {
                    None => return None,
                    Some(c2) => c2,
                };
            },
            Atom::VarTerm(v, c) => {
                let k = match apply_sign(kind == 2, c) {
                    None => return None,
                    Some(k) => k,
                };
                let old = match assoc_lookup(&terms, &v) {
                    Some(x) => x,
                    None => Rational::zero(),
                };
                let nv = match old.checked_add(k) {
                    None => return None,
                    Some(nv) => nv,
                };
                assoc_store(&mut terms, v, nv);
            },
        }
    }
    Some(Ok((terms, constant)))
}

/// Parses one linear equation and brings it into normal form, or `None` where the
/// arithmetic overflows `i128` or divides by zero.
pub fn try_parse_equation(input: &str) -> (r: Option<Result<NormalizedEquation, String>>)
    ensures
        match equation_spec(input@) {
            None => r is None,
            Some(Err(e)) => r matches Some(Err(m)) && m@ == e,
            Some(Ok(v)) => r matches Some(Ok(x)) && x@ == v,
        },
{
    let tokens = match tokenize(input) {
        Ok(t) => t,
        Err(e) => return Some(Err(e)),
    };
    let ghost ts = tokens_view(tokens@);
    let mut pos: usize = 0;
    let (left_terms, left_const) = match parse_expression(&tokens, &mut pos) {
        None => return None,
        Some(Err(e)) => return Some(Err(e)),
        Some(Ok(x)) => x,
    };
    if pos >= tokens.len() {
        return Some(Err(String::from_str("'=' in der Gleichung erwartet")));
    }
    assert(ts[pos as int] == tokens@[pos as int]@);
    let is_eq = match &tokens[pos] {
        Token::Equals => true,
        _ => false,
    };
    if !is_eq {
        return Some(Err(String::from_str("'=' in der Gleichung erwartet")));
    }
    pos = pos + 1;
    let (right_terms, right_const) = match parse_expression(&tokens, &mut pos) {
        None => return None,
        Some(Err(e)) => return Some(Err(e)),
        Some(Ok(x)) => x,
    };
    if pos < tokens.len() {
        assert(ts[pos as int] == tokens@[pos as int]@);
        let mut msg = String::from_str("Unerwartetes Token nach Gleichung: ");
        let d = token_debug_string(&tokens[pos]);
        push_str(&mut msg, d.as_str());
        return Some(Err(msg));
    }
    proof {
        lemma_expression_sorted(ts, 0);
    }
    // all_terms = left - right
    let mut all_terms = left_terms;
    let ghost lt = entries_view(all_terms@);
    let ghost rt = entries_view(right_terms@);
    let mut i: usize = 0;
    assert(rt.subrange(0, 0) =~= Seq::<(Seq<char>, Rational)>::empty());
    while i < right_terms.len()
        invariant
            i <= right_terms.len(),
            rt == entries_view(right_terms@),
            sorted_keys(entries_view(all_terms@)),
            merge_sub(lt, rt.subrange(0, i as int)) == Some(entries_view(all_terms@)),
            equation_spec(input@) == match merge_sub(lt, rt) {
                None => None,
                Some(all) => match spec_sub(right_const, left_const) {
                    None => None,
                    Some(c) => Some(Ok::<(SpecTerms, Rational), Seq<char>>((drop_zero_terms(all), c))),
                },
            },
        decreases right_terms.len() - i,
    {
        let var = right_terms[i].0.clone();
        let coeff = right_terms[i].1;
        assert(rt.subrange(0, i + 1).drop_last() =~= rt.subrange(0, i as int));
        assert(rt[i as int] == (var@, coeff));
        let e = match assoc_lookup(&all_terms, &var) {
            Some(x) => x,
            None => Rational::zero(),
        };
        let nv = match e.checked_sub(coeff) {
            Some(nv) => nv,
            None => {
                proof {
                    lemma_merge_sub_none(lt, rt, i as int + 1);
                }
                return None;
            },
        };
        assoc_store(&mut all_terms, var, nv);
        i = i + 1;
    }
    assert(rt.subrange(0, right_terms.len() as int) =~= rt);
    let constant = match right_const.checked_sub(left_const) {
        Some(c) => c,
        None => return None,
    };
    // drop the zero coefficients
    let mut cleaned: Vec<(String, Rational)> = Vec::new();
    let ghost all = entries_view(all_terms@);
    let mut j: usize = 0;
    assert(all.subrange(0, 0) =~= Seq::<(Seq<char>, Rational)>::empty());
    while j < all_terms.len()
        invariant
            j <= all_terms.len(),
            all == entries_view(all_terms@),
            entries_view(cleaned@) == drop_zero_terms(all.subrange(0, j as int)),
        decreases all_terms.len() - j,
    {
        assert(all.subrange(0, j + 1).drop_last() =~= all.subrange(0, j as int));
        assert(all[j as int] == (all_terms@[j as int].0@, all_terms@[j as int].1));
        if !all_terms[j].1.is_zero() {
            let ghost before = entries_view(cleaned@);
            let entry = (all_terms[j].0.clone(), all_terms[j].1);
            cleaned.push(entry);
            assert(entries_view(cleaned@) =~= before.push(all[j as int]));
        }
        j = j + 1;
    }
    assert(all.subrange(0, all_terms.len() as int) =~= all);
    Some(Ok(NormalizedEquation { terms: cleaned, constant }))
}

proof fn lemma_merge_sub_none(acc: SpecTerms, rt: SpecTerms, k: int)
    requires
        0 <= k <= rt.len(),
        merge_sub(acc, rt.subrange(0, k)) is None,
    ensures
        merge_sub(acc, rt) is None,
    decreases rt.len() - k,
{
    if k < rt.len() {
        assert(rt.subrange(0, k + 1).drop_last() =~= rt.subrange(0, k));
        lemma_merge_sub_none(acc, rt, k + 1);
    } else {
        assert(rt.subrange(0, k) =~= rt);
    }
}

/// Parses one linear equation and brings it into normal form (see
/// [`equation_spec`]).
pub fn parse_equation(input: &str) -> (r: Result<NormalizedEquation, String>)
    requires
        equation_spec(input@) is Some,
    ensures
        match equation_spec(input@) {
            Some(Err(e)) => r matches Err(m) && m@ == e,
            Some(Ok(v)) => r matches Ok(x) && x@ == v,
            None => false,
        },
{
    match try_parse_equation(input) {
        Some(r) => r,
        None => Err(String::new()),
    }
}

} // verus!
