use vstd::prelude::*;
use crate::frac::{
    fadd, feq, fmul, fnz, fr, fsub, fzero, lemma_fadd_assoc, lemma_fadd_comm, lemma_fadd_cong,
    lemma_feq_trans, lemma_fmul_cong, lemma_fmul_distrib, lemma_fnz_ops, Frac,
};
use crate::lexer::SpecToken;
use vstd::arithmetic::mul::{
    lemma_mul_is_distributive_add, lemma_mul_is_distributive_add_other_way,
    lemma_mul_is_distributive_sub_other_way,
};
use crate::equivalence::{
    law_normal_form_is_equivalent, lemma_coeff_wf, lemma_terms_value_nz, lemma_terms_value_put,
    terms_value, val_nz,
};
use crate::frac::{lemma_fadd_zero, lemma_fadd_zero_right};
use crate::lexer::lex;
use crate::matrix::coeff_of;
use crate::names::{assoc_get, assoc_put, lemma_assoc_put_sorted, sorted_keys};
use crate::parser::{
    all_wf, combine_spec, equation_spec, expr_loop, expression_spec, factor_spec, lemma_put_all_wf,
    lemma_zero_wf, signed, term_loop, term_spec, SpecAtom, SpecTerms,
};
use crate::rational::{lemma_make, spec_add, wf, zero_spec, Rational};

verus! {

// ---------------------------------------------------------------------------
// What one side of an equation means, read from its tokens
// ---------------------------------------------------------------------------

/// The quotient of two fractions.
pub open spec fn fdiv(a: Frac, b: Frac) -> Frac {
    (a.0 * b.1, a.1 * b.0)
}

/// The place of the last '+' or '-' among the tokens, or -1.
pub open spec fn last_sign(ts: Seq<SpecToken>) -> int
    decreases ts.len(),
{
    if ts.len() == 0 {
        -1
    } else if ts.last() is Plus || ts.last() is Minus {
        ts.len() - 1
    } else {
        last_sign(ts.drop_last())
    }
}

/// The place of the last '*' or '/' among the tokens, or -1.
pub open spec fn last_op(ts: Seq<SpecToken>) -> int
    decreases ts.len(),
{
    if ts.len() == 0 {
        -1
    } else if ts.last() is Star || ts.last() is Slash {
        ts.len() - 1
    } else {
        last_op(ts.drop_last())
    }
}

/// The number a factor writes: its number, or 1 for a bare name.
pub open spec fn factor_number(f: Seq<SpecToken>) -> Frac {
    if f.len() > 0 && f[0] is Number {
        (f[0]->Number_0 as int, 1)
    } else {
        (1, 1)
    }
}

/// The numeric part of a term: the numbers of its factors, multiplied and divided
/// from left to right.
pub open spec fn term_number(ts: Seq<SpecToken>) -> Frac
    decreases ts.len(),
{
    let j = last_op(ts);
    if 0 <= j < ts.len() {
        let left = term_number(ts.subrange(0, j));
        let right = factor_number(ts.subrange(j + 1, ts.len() as int));
        if ts[j] is Star {
            fmul(left, right)
        } else {
            fdiv(left, right)
        }
    } else {
        factor_number(ts)
    }
}

/// The name a term carries: its last name, if it has one.
pub open spec fn term_name(ts: Seq<SpecToken>) -> Option<Seq<char>>
    decreases ts.len(),
{
    if ts.len() == 0 {
        None
    } else if ts.last() is Ident {
        Some(ts.last()->Ident_0)
    } else {
        term_name(ts.drop_last())
    }
}

/// The value of a term for values of the names: its numeric part, times the value of
/// its name where it has one.
pub open spec fn term_value(ts: Seq<SpecToken>, val: spec_fn(Seq<char>) -> Frac) -> Frac {
    match term_name(ts) {
        Some(v) => fmul(term_number(ts), val(v)),
        None => term_number(ts),
    }
}

/// The value of one side of an equation for values of the names: its terms added or
/// subtracted by the sign before each, a leading '-' subtracting the first from zero.
pub open spec fn side_value(ts: Seq<SpecToken>, val: spec_fn(Seq<char>) -> Frac) -> Frac
    decreases ts.len(),
{
    let k = last_sign(ts);
    if ts.len() == 0 {
        fzero()
    } else if 0 <= k < ts.len() {
        let left = side_value(ts.subrange(0, k), val);
        let right = term_value(ts.subrange(k + 1, ts.len() as int), val);
        if ts[k] is Plus {
            fadd(left, right)
        } else {
            fsub(left, right)
        }
    } else {
        term_value(ts, val)
    }
}

// ---------------------------------------------------------------------------
// Facts about the reading
// ---------------------------------------------------------------------------

/// None of the tokens is a '+', '-' or '='.
pub open spec fn no_sign(ts: Seq<SpecToken>) -> bool {
    forall|i: int| 0 <= i < ts.len() ==> !(#[trigger] ts[i] is Plus) && !(ts[i] is Minus) && !(ts[i] is Equals)
}

/// None of the tokens is a '*' or '/'.
pub open spec fn no_op(ts: Seq<SpecToken>) -> bool {
    forall|i: int| 0 <= i < ts.len() ==> !(#[trigger] ts[i] is Star) && !(ts[i] is Slash)
}

proof fn lemma_last_sign_none(ts: Seq<SpecToken>)
    requires
        no_sign(ts),
    ensures
        last_sign(ts) == -1,
    decreases ts.len(),
{
    if ts.len() > 0 {
        assert(ts.last() == ts[ts.len() - 1]);
        let t = ts.drop_last();
        assert forall|i: int| 0 <= i < t.len() implies !(#[trigger] t[i] is Plus) && !(t[i] is Minus) && !(t[i] is Equals) by {
            assert(t[i] == ts[i]);
        }
        lemma_last_sign_none(t);
    }
}

proof fn lemma_last_op_none(ts: Seq<SpecToken>)
    requires
        no_op(ts),
    ensures
        last_op(ts) == -1,
    decreases ts.len(),
{
    if ts.len() > 0 {
        assert(ts.last() == ts[ts.len() - 1]);
        let t = ts.drop_last();
        assert forall|i: int| 0 <= i < t.len() implies !(#[trigger] t[i] is Star) && !(t[i] is Slash) by {
            assert(t[i] == ts[i]);
        }
        lemma_last_op_none(t);
    }
}

/// The last sign of `x + [s] + y`, where `s` is a sign and `y` has none, is `s`.
proof fn lemma_last_sign_split(x: Seq<SpecToken>, s: SpecToken, y: Seq<SpecToken>)
    requires
        s is Plus || s is Minus,
        no_sign(y),
    ensures
        last_sign(x + seq![s] + y) == x.len(),
    decreases y.len(),
{
    let w = x + seq![s] + y;
    if y.len() == 0 {
        assert(w.last() == s);
    } else {
        assert(w.last() == y.last());
        assert(y.last() == y[y.len() - 1]);
        let y2 = y.drop_last();
        assert forall|i: int| 0 <= i < y2.len() implies !(#[trigger] y2[i] is Plus) && !(y2[i] is Minus) && !(y2[i] is Equals) by {
            assert(y2[i] == y[i]);
        }
        lemma_last_sign_split(x, s, y2);
        assert(w.drop_last() =~= x + seq![s] + y2);
    }
}

/// The last '*' or '/' of `x + [s] + y`, where `s` is one and `y` has none, is `s`.
proof fn lemma_last_op_split(x: Seq<SpecToken>, s: SpecToken, y: Seq<SpecToken>)
    requires
        s is Star || s is Slash,
        no_op(y),
    ensures
        last_op(x + seq![s] + y) == x.len(),
    decreases y.len(),
{
    let w = x + seq![s] + y;
    if y.len() == 0 {
        assert(w.last() == s);
    } else {
        assert(w.last() == y.last());
        assert(y.last() == y[y.len() - 1]);
        let y2 = y.drop_last();
        assert forall|i: int| 0 <= i < y2.len() implies !(#[trigger] y2[i] is Star) && !(y2[i] is Slash) by {
            assert(y2[i] == y[i]);
        }
        lemma_last_op_split(x, s, y2);
        assert(w.drop_last() =~= x + seq![s] + y2);
    }
}

/// The name of `x + y` is that of `y` where `y` has one, else that of `x`.
proof fn lemma_term_name_concat(x: Seq<SpecToken>, y: Seq<SpecToken>)
    ensures
        term_name(x + y) == match term_name(y) {
            Some(v) => Some(v),
            None => term_name(x),
        },
    decreases y.len(),
{
    if y.len() == 0 {
        assert(x + y =~= x);
    } else {
        let w = x + y;
        assert(w.last() == y.last());
        lemma_term_name_concat(x, y.drop_last());
        assert(w.drop_last() =~= x + y.drop_last());
    }
}

// ---------------------------------------------------------------------------
// Fraction algebra used below
// ---------------------------------------------------------------------------

proof fn lemma_fdiv_cong(a: Frac, a2: Frac, b: Frac)
    requires
        feq(a, a2),
    ensures
        feq(fdiv(a, b), fdiv(a2, b)),
{
    assert((a.0 * b.1) * (a2.1 * b.0) == (a2.0 * b.1) * (a.1 * b.0)) by (nonlinear_arith)
        requires
            a.0 * a2.1 == a2.0 * a.1,
    ;
}

/// `(t - a) + (a + b) == t + b`.
proof fn lemma_cancel_add(t: Frac, a: Frac, b: Frac)
    ensures
        feq(fadd(fsub(t, a), fadd(a, b)), fadd(t, b)),
{
    let (t0, t1) = t;
    let (a0, a1) = a;
    let (b0, b1) = b;
    let l0 = (t0 * a1 - a0 * t1) * (a1 * b1) + (a0 * b1 + b0 * a1) * (t1 * a1);
    let l1 = (t1 * a1) * (a1 * b1);
    let r0 = t0 * b1 + b0 * t1;
    let r1 = t1 * b1;
    lemma_mul_is_distributive_sub_other_way(a1 * b1, t0 * a1, a0 * t1);
    lemma_mul_is_distributive_add_other_way(t1 * a1, a0 * b1, b0 * a1);
    lemma_mul_is_distributive_add(a1 * a1, t0 * b1, b0 * t1);
    assert((t0 * a1) * (a1 * b1) == (a1 * a1) * (t0 * b1)) by (nonlinear_arith);
    assert((a0 * t1) * (a1 * b1) == (a0 * b1) * (t1 * a1)) by (nonlinear_arith);
    assert((b0 * a1) * (t1 * a1) == (a1 * a1) * (b0 * t1)) by (nonlinear_arith);
    assert(l0 == (a1 * a1) * r0);
    assert(l1 == (a1 * a1) * r1) by (nonlinear_arith)
        requires
            l1 == (t1 * a1) * (a1 * b1),
            r1 == t1 * b1,
    ;
    assert(((a1 * a1) * r0) * r1 == r0 * ((a1 * a1) * r1)) by (nonlinear_arith);
}

/// `(t + c) + k == (t + k) + c`.
proof fn lemma_add_swap(t: Frac, c: Frac, k: Frac)
    requires
        fnz(t),
        fnz(c),
        fnz(k),
    ensures
        feq(fadd(fadd(t, k), c), fadd(fadd(t, c), k)),
{
    lemma_fnz_ops(t, k);
    lemma_fnz_ops(t, c);
    lemma_fnz_ops(k, c);
    lemma_fnz_ops(c, k);
    lemma_fadd_assoc(t, k, c);
    lemma_fadd_assoc(t, c, k);
    lemma_fadd_comm(k, c);
    assert(feq(t, t));
    lemma_fadd_cong(t, t, fadd(k, c), fadd(c, k));
    lemma_fnz_ops(t, fadd(k, c));
    lemma_fnz_ops(t, fadd(c, k));
    // (t + k) + c == t + (k + c) == t + (c + k) == (t + c) + k
    lemma_feq_trans(fadd(fadd(t, k), c), fadd(t, fadd(k, c)), fadd(t, fadd(c, k)));
    lemma_feq_trans(fadd(fadd(t, k), c), fadd(t, fadd(c, k)), fadd(fadd(t, c), k));
}

/// Storing `o + k` in place of `o` under a name of value `x` adds `k * x`:
/// `((tv - o*x) + nv*x) + c == (tv + c) + k*x` where `nv == o + k`.
proof fn lemma_var_step(tv: Frac, tvp: Frac, c: Frac, o: Frac, nv: Frac, k: Frac, x: Frac)
    requires
        fnz(tv),
        fnz(tvp),
        fnz(c),
        fnz(o),
        fnz(nv),
        fnz(k),
        fnz(x),
        feq(tvp, fadd(fsub(tv, fmul(o, x)), fmul(nv, x))),
        feq(nv, fadd(o, k)),
    ensures
        feq(fadd(tvp, c), fadd(fadd(tv, c), fmul(k, x))),
{
    let ox = fmul(o, x);
    let kx = fmul(k, x);
    let nx = fmul(nv, x);
    lemma_fnz_ops(o, x);
    lemma_fnz_ops(k, x);
    lemma_fnz_ops(nv, x);
    lemma_fnz_ops(o, k);
    lemma_fnz_ops(tv, ox);
    lemma_fnz_ops(ox, kx);
    lemma_fnz_ops(fsub(tv, ox), nx);
    lemma_fnz_ops(fsub(tv, ox), fadd(ox, kx));
    lemma_fnz_ops(tv, kx);
    lemma_fnz_ops(fadd(o, k), x);
    // nv*x == (o + k)*x == o*x + k*x
    assert(feq(x, x));
    lemma_fmul_cong(nv, fadd(o, k), x, x);
    lemma_fmul_distrib(x, o, k);
    assert(fmul(x, o) == ox);
    assert(fmul(x, k) == kx);
    assert(fmul(x, fadd(o, k)) == fmul(fadd(o, k), x));
    lemma_feq_trans(nx, fmul(fadd(o, k), x), fadd(ox, kx));
    // (tv - o*x) + n*x == (tv - o*x) + (o*x + k*x) == tv + k*x
    assert(feq(fsub(tv, ox), fsub(tv, ox)));
    lemma_fadd_cong(fsub(tv, ox), fsub(tv, ox), nx, fadd(ox, kx));
    lemma_cancel_add(tv, ox, kx);
    lemma_feq_trans(fadd(fsub(tv, ox), nx), fadd(fsub(tv, ox), fadd(ox, kx)), fadd(tv, kx));
    lemma_feq_trans(tvp, fadd(fsub(tv, ox), nx), fadd(tv, kx));
    assert(feq(c, c));
    lemma_fadd_cong(tvp, fadd(tv, kx), c, c);
    lemma_add_swap(tv, c, kx);
    lemma_fnz_ops(fadd(tv, kx), c);
    lemma_feq_trans(fadd(tvp, c), fadd(fadd(tv, kx), c), fadd(fadd(tv, c), kx));
}

/// `sign * n`, with the sign of a term applied, times `x`, added to `l`, is `l + tv`
/// or `l - tv` where `tv` is `n * x`.
proof fn lemma_signed_add(l: Frac, n: Rational, a1: Rational, tv: Frac, x: Frac, plus: bool)
    requires
        signed(if plus { 1 } else { -1 }, n) == Some(a1),
        n.den > 0,
        fnz(l),
        fnz(x),
        fnz(tv),
        feq(fmul(fr(n), x), tv),
    ensures
        a1.den > 0,
        feq(fadd(l, fmul(fr(a1), x)), if plus { fadd(l, tv) } else { fsub(l, tv) }),
{
    let sg: int = if plus { 1 } else { -1 };
    lemma_make(sg * n.num, n.den as int);
    let nn: Frac = (sg * n.num, n.den as int);
    assert(feq(fr(a1), nn));
    assert(feq(x, x));
    lemma_fmul_cong(fr(a1), nn, x, x);
    lemma_fnz_ops(nn, x);
    lemma_fnz_ops(fr(a1), x);
    let ax = fmul(fr(a1), x);
    let nx = fmul(nn, x);
    assert(feq(l, l));
    if plus {
        assert(sg * n.num == n.num) by (nonlinear_arith)
            requires
                sg == 1,
        ;
        assert(nn == fr(n));
        lemma_feq_trans(ax, nx, tv);
        lemma_fadd_cong(l, l, ax, tv);
    } else {
        let mt: Frac = (-tv.0, tv.1);
        assert(sg == -1);
        assert(sg * n.num == -n.num) by (nonlinear_arith)
            requires
                sg == -1,
        ;
        assert(nn.0 == -n.num);
        assert(nx.0 == nn.0 * x.0);
        assert(nx.0 * mt.1 == mt.0 * nx.1) by (nonlinear_arith)
            requires
                nx.0 == nn.0 * x.0,
                nn.0 == -n.num,
                nx.1 == n.den * x.1,
                mt.0 == -tv.0,
                mt.1 == tv.1,
                (n.num * x.0) * tv.1 == tv.0 * (n.den * x.1),
        ;
        lemma_feq_trans(ax, nx, mt);
        lemma_fadd_cong(l, l, ax, mt);
        assert(fadd(l, mt) == fsub(l, tv)) by {
            assert(mt.0 * l.1 == -(tv.0 * l.1)) by (nonlinear_arith)
                requires
                    mt.0 == -tv.0,
            ;
        }
    }
}

// ---------------------------------------------------------------------------
// The parser reads terms by their meaning
// ---------------------------------------------------------------------------

pub open spec fn atom_coeff(a: SpecAtom) -> Rational {
    match a {
        SpecAtom::Num(c) => c,
        SpecAtom::VarTerm(_, c) => c,
    }
}

pub open spec fn atom_name(a: SpecAtom) -> Option<Seq<char>> {
    match a {
        SpecAtom::Num(_) => None,
        SpecAtom::VarTerm(v, _) => Some(v),
    }
}

/// The atom stands for the term `t`: its coefficient is the term's numeric part and
/// its name the term's name.
pub open spec fn atom_means(a: SpecAtom, t: Seq<SpecToken>) -> bool {
    &&& atom_coeff(a).den > 0
    &&& fnz(term_number(t))
    &&& feq(fr(atom_coeff(a)), term_number(t))
    &&& term_name(t) == atom_name(a)
    &&& no_sign(t)
}

proof fn lemma_factor_means(ts: Seq<SpecToken>, pos: int)
    requires
        0 <= pos,
    ensures
        factor_spec(ts, pos) matches Ok((a, p)) ==> {
            &&& pos < p <= ts.len()
            &&& atom_means(a, ts.subrange(pos, p))
            &&& no_op(ts.subrange(pos, p))
            &&& term_number(ts.subrange(pos, p)) == factor_number(ts.subrange(pos, p))
        },
{
    if factor_spec(ts, pos) is Ok {
        let (a, p) = factor_spec(ts, pos)->Ok_0;
        let f = ts.subrange(pos, p);
        assert(f.len() >= 1 && f[0] == ts[pos]);
        if p == pos + 2 {
            assert(f[1] == ts[pos + 1]);
            assert(f.drop_last() =~= seq![ts[pos]]);
        } else {
            assert(f.drop_last() =~= Seq::<SpecToken>::empty());
        }
        assert forall|i: int| 0 <= i < f.len() implies !(#[trigger] f[i] is Star) && !(f[i] is Slash) by {}
        assert forall|i: int| 0 <= i < f.len() implies !(#[trigger] f[i] is Plus) && !(f[i] is Minus) && !(f[i] is Equals) by {}
        lemma_last_op_none(f);
        assert(f.last() == f[f.len() - 1]);
        if p == pos + 2 {
            assert(term_name(f) == Some(f[1]->Ident_0));
        } else if ts[pos] is Ident {
            assert(term_name(f) == Some(f[0]->Ident_0));
        } else {
            assert(term_name(f.drop_last()) == None::<Seq<char>>);
        }
    }
}

#[verifier::spinoff_prover]
proof fn lemma_term_loop_means(ts: Seq<SpecToken>, a: int, atom: SpecAtom, pos: int)
    requires
        0 <= a < pos <= ts.len(),
        atom_means(atom, ts.subrange(a, pos)),
    ensures
        term_loop(ts, atom, pos) matches Some(Ok((a2, p))) ==> pos <= p <= ts.len() && atom_means(a2, ts.subrange(a, p)),
    decreases ts.len() - pos,
{
    if pos < ts.len() && (ts[pos] is Star || ts[pos] is Slash) {
        let div = ts[pos] is Slash;
        lemma_factor_means(ts, pos + 1);
        match factor_spec(ts, pos + 1) {
            Ok((right, p1)) => match combine_spec(atom, right, div) {
                Some(Ok(a2)) => {
                    let x = ts.subrange(a, pos);
                    let f = ts.subrange(pos + 1, p1);
                    let t2 = ts.subrange(a, p1);
                    assert(t2 =~= x + seq![ts[pos]] + f);
                    lemma_last_op_split(x, ts[pos], f);
                    assert(t2.subrange(0, x.len() as int) =~= x);
                    assert(t2.subrange(x.len() as int + 1, t2.len() as int) =~= f);
                    lemma_term_name_concat(x + seq![ts[pos]], f);
                    lemma_term_name_concat(x, seq![ts[pos]]);
                    assert(term_name(seq![ts[pos]]) == None::<Seq<char>>) by {
                        assert(seq![ts[pos]].drop_last() =~= Seq::<SpecToken>::empty());
                        assert(seq![ts[pos]].last() == ts[pos]);
                        assert(term_name(Seq::<SpecToken>::empty()) == None::<Seq<char>>);
                    }
                    let xc = atom_coeff(atom);
                    let yc = atom_coeff(right);
                    assert(fr(yc) == factor_number(f));
                    let tx = term_number(x);
                    let fy = factor_number(f);
                    assert(fnz(fy));
                    let rc = atom_coeff(a2);
                    assert(feq(fy, fy));
                    if div {
                        lemma_make(xc.num * yc.den, xc.den * yc.num);
                        assert(xc.den * yc.num != 0);
                        assert(yc.num != 0) by (nonlinear_arith)
                            requires
                                xc.den * yc.num != 0,
                        ;
                        assert(term_number(t2) == fdiv(tx, fy));
                        assert(feq(fr(rc), fdiv(fr(xc), fr(yc))));
                        lemma_fdiv_cong(fr(xc), tx, fy);
                        assert(fdiv(fr(xc), fr(yc)).1 != 0) by (nonlinear_arith)
                            requires
                                xc.den > 0,
                                yc.num != 0,
                                fdiv(fr(xc), fr(yc)).1 == xc.den * yc.num,
                        ;
                        assert(fnz(fdiv(tx, fy))) by (nonlinear_arith)
                            requires
                                tx.1 != 0,
                                fy.0 != 0,
                                fdiv(tx, fy).1 == tx.1 * fy.0,
                        ;
                        lemma_feq_trans(fr(rc), fdiv(fr(xc), fr(yc)), fdiv(tx, fy));
                    } else {
                        lemma_make(xc.num * yc.num, xc.den * yc.den);
                        assert(term_number(t2) == fmul(tx, fy));
                        assert(feq(fr(rc), fmul(fr(xc), fr(yc))));
                        lemma_fmul_cong(fr(xc), tx, fy, fy);
                        lemma_fnz_ops(fr(xc), fr(yc));
                        lemma_fnz_ops(tx, fy);
                        lemma_feq_trans(fr(rc), fmul(fr(xc), fr(yc)), fmul(tx, fy));
                    }
                    assert(no_sign(t2)) by {
                        assert forall|i: int| 0 <= i < t2.len() implies !(#[trigger] t2[i] is Plus) && !(t2[i] is Minus) && !(t2[i] is Equals) by {
                            if i < x.len() {
                                assert(t2[i] == x[i]);
                            } else if i > x.len() {
                                assert(t2[i] == f[i - x.len() - 1]);
                            }
                        }
                    }
                    lemma_term_loop_means(ts, a, a2, p1);
                },
                _ => {},
            },
            Err(_) => {},
        }
    }
}

/// A term the parser reads stands for its tokens.
proof fn lemma_term_means(ts: Seq<SpecToken>, pos: int)
    requires
        0 <= pos,
    ensures
        term_spec(ts, pos) matches Some(Ok((a, p))) ==> pos < p <= ts.len() && atom_means(a, ts.subrange(pos, p)),
{
    lemma_factor_means(ts, pos);
    match factor_spec(ts, pos) {
        Ok((a, p)) => {
            lemma_term_loop_means(ts, pos, a, p);
        },
        Err(_) => {},
    }
}

// ---------------------------------------------------------------------------
// The parser reads a side by its meaning
// ---------------------------------------------------------------------------

/// The coefficients and constant gathered so far stand for the tokens `t` read so
/// far: for the values `val` of the names, `sum(coeff * val) + constant` is the value
/// of `t` as a side of an equation.
pub open spec fn sum_means(terms: SpecTerms, constant: Rational, t: Seq<SpecToken>, val: spec_fn(Seq<char>) -> Frac) -> bool {
    &&& sorted_keys(terms)
    &&& all_wf(terms)
    &&& wf(constant)
    &&& fnz(side_value(t, val))
    &&& feq(fadd(terms_value(terms, val), fr(constant)), side_value(t, val))
    &&& forall|i: int| 0 <= i < t.len() ==> !(#[trigger] t[i] is Equals)
}

#[verifier::spinoff_prover]
proof fn lemma_expr_loop_means(
    ts: Seq<SpecToken>,
    a: int,
    terms: SpecTerms,
    constant: Rational,
    pos: int,
    val: spec_fn(Seq<char>) -> Frac,
)
    requires
        0 <= a < pos <= ts.len(),
        val_nz(val),
        sum_means(terms, constant, ts.subrange(a, pos), val),
    ensures
        expr_loop(ts, terms, constant, pos) matches Some(Ok((t, c, p))) ==> pos <= p <= ts.len() && sum_means(
            t,
            c,
            ts.subrange(a, p),
            val,
        ),
    decreases ts.len() - pos,
{
    if pos < ts.len() && (ts[pos] is Plus || ts[pos] is Minus) {
        let plus = ts[pos] is Plus;
        let sign: int = if plus { 1 } else { -1 };
        lemma_term_means(ts, pos + 1);
        match term_spec(ts, pos + 1) {
            Some(Ok((atom, p1))) => {
                let sv = ts.subrange(a, pos);
                let tt = ts.subrange(pos + 1, p1);
                let s2 = ts.subrange(a, p1);
                assert(s2 =~= sv + seq![ts[pos]] + tt);
                lemma_last_sign_split(sv, ts[pos], tt);
                assert(s2.subrange(0, sv.len() as int) =~= sv);
                assert(s2.subrange(sv.len() as int + 1, s2.len() as int) =~= tt);
                let l = side_value(sv, val);
                let tv = term_value(tt, val);
                assert(side_value(s2, val) == if plus { fadd(l, tv) } else { fsub(l, tv) });
                let tvv = terms_value(terms, val);
                let cc = fr(constant);
                lemma_terms_value_nz(terms, val);
                assert(forall|i: int| 0 <= i < s2.len() ==> !(#[trigger] s2[i] is Equals)) by {
                    assert forall|i: int| 0 <= i < s2.len() implies !(#[trigger] s2[i] is Equals) by {
                        if i < sv.len() {
                            assert(s2[i] == sv[i]);
                        } else if i > sv.len() {
                            assert(s2[i] == tt[i - sv.len() - 1]);
                        }
                    }
                }
                let one: Frac = (1, 1);
                match atom {
                    SpecAtom::Num(n) => {
                        assert(term_name(tt) is None);
                        assert(fr(n).0 * 1 == fr(n).0 && fr(n).1 * 1 == fr(n).1) by (nonlinear_arith);
                        assert(fmul(fr(n), one) == fr(n));
                        assert(fnz(tv));
                        match signed(sign, n) {
                            Some(a1) => {
                                lemma_signed_add(l, n, a1, tv, one, plus);
                                assert(fr(a1).0 * 1 == fr(a1).0 && fr(a1).1 * 1 == fr(a1).1) by (nonlinear_arith);
                                assert(fmul(fr(a1), one) == fr(a1));
                                match spec_add(constant, a1) {
                                    Some(c2) => {
                                        lemma_make(constant.num * a1.den + a1.num * constant.den, constant.den * a1.den);
                                        let aa = fr(a1);
                                        assert(feq(fr(c2), fadd(cc, aa)));
                                        assert(feq(tvv, tvv));
                                        lemma_fadd_cong(tvv, tvv, fr(c2), fadd(cc, aa));
                                        lemma_fadd_assoc(tvv, cc, aa);
                                        assert(feq(aa, aa));
                                        lemma_fadd_cong(fadd(tvv, cc), l, aa, aa);
                                        lemma_fnz_ops(cc, aa);
                                        lemma_fnz_ops(tvv, fadd(cc, aa));
                                        lemma_fnz_ops(tvv, cc);
                                        lemma_fnz_ops(fadd(tvv, cc), aa);
                                        lemma_fnz_ops(l, aa);
                                        lemma_feq_trans(fadd(tvv, fr(c2)), fadd(tvv, fadd(cc, aa)), fadd(fadd(tvv, cc), aa));
                                        lemma_feq_trans(fadd(tvv, fr(c2)), fadd(fadd(tvv, cc), aa), fadd(l, aa));
                                        lemma_feq_trans(fadd(tvv, fr(c2)), fadd(l, aa), side_value(s2, val));
                                        lemma_fnz_ops(l, tv);
                                        lemma_expr_loop_means(ts, a, terms, c2, p1, val);
                                    },
                                    None => {},
                                }
                            },
                            None => {},
                        }
                    },
                    SpecAtom::VarTerm(v, cf) => {
                        let x = val(v);
                        assert(fnz(x));
                        assert(tv == fmul(term_number(tt), x));
                        assert(feq(x, x));
                        lemma_fmul_cong(fr(cf), term_number(tt), x, x);
                        lemma_fnz_ops(term_number(tt), x);
                        match signed(sign, cf) {
                            Some(k) => {
                                lemma_signed_add(l, cf, k, tv, x, plus);
                                let old = match assoc_get(terms, v) {
                                    Some(y) => y,
                                    None => zero_spec(),
                                };
                                assert(old == coeff_of(terms, v));
                                lemma_coeff_wf(terms, v);
                                match spec_add(old, k) {
                                    Some(nv) => {
                                        lemma_make(old.num * k.den + k.num * old.den, old.den * k.den);
                                        lemma_make(sign * cf.num, cf.den as int);
                                        let t2 = assoc_put(terms, v, nv);
                                        lemma_assoc_put_sorted(terms, v, nv);
                                        lemma_put_all_wf(terms, v, nv);
                                        lemma_terms_value_put(terms, v, nv, val);
                                        lemma_terms_value_nz(t2, val);
                                        let kx = fmul(fr(k), x);
                                        lemma_var_step(tvv, terms_value(t2, val), cc, fr(old), fr(nv), fr(k), x);
                                        assert(feq(kx, kx));
                                        lemma_fadd_cong(fadd(tvv, cc), l, kx, kx);
                                        lemma_fnz_ops(fr(k), x);
                                        lemma_fnz_ops(tvv, cc);
                                        lemma_fnz_ops(fadd(tvv, cc), kx);
                                        lemma_fnz_ops(l, kx);
                                        lemma_feq_trans(fadd(terms_value(t2, val), cc), fadd(fadd(tvv, cc), kx), fadd(l, kx));
                                        lemma_feq_trans(fadd(terms_value(t2, val), cc), fadd(l, kx), side_value(s2, val));
                                        lemma_fnz_ops(l, tv);
                                        lemma_expr_loop_means(ts, a, t2, constant, p1, val);
                                    },
                                    None => {},
                                }
                            },
                            None => {},
                        }
                    },
                }
            },
            _ => {},
        }
    }
}

/// An expression the parser reads stands for its tokens.
#[verifier::spinoff_prover]
proof fn lemma_expression_means(ts: Seq<SpecToken>, pos: int, val: spec_fn(Seq<char>) -> Frac)
    requires
        0 <= pos,
        val_nz(val),
    ensures
        expression_spec(ts, pos) matches Some(Ok((t, c, p))) ==> pos < p <= ts.len() && sum_means(
            t,
            c,
            ts.subrange(pos, p),
            val,
        ),
{
    let neg = 0 <= pos < ts.len() && ts[pos] is Minus;
    let sign: int = if neg { -1 } else { 1 };
    let p0 = if neg { pos + 1 } else { pos };
    lemma_term_means(ts, p0);
    lemma_zero_wf();
    match term_spec(ts, p0) {
        Some(Ok((atom, p1))) => {
            let tt = ts.subrange(p0, p1);
            let s1 = ts.subrange(pos, p1);
            let tv = term_value(tt, val);
            let z = fzero();
            if neg {
                assert(s1 =~= Seq::<SpecToken>::empty() + seq![ts[pos]] + tt);
                lemma_last_sign_split(Seq::<SpecToken>::empty(), ts[pos], tt);
                assert(s1.subrange(0, 0) =~= Seq::<SpecToken>::empty());
                assert(s1.subrange(1, s1.len() as int) =~= tt);
                assert(side_value(Seq::<SpecToken>::empty(), val) == z);
                assert(s1.len() > 0);
                assert(s1[0] is Minus);
                assert(side_value(s1, val) == fsub(z, tv));
            } else {
                assert(s1 =~= tt);
                lemma_last_sign_none(tt);
                assert(side_value(s1, val) == tv);
            }
            assert forall|i: int| 0 <= i < s1.len() implies !(#[trigger] s1[i] is Equals) by {
                if neg && i > 0 {
                    assert(s1[i] == tt[i - 1]);
                } else if !neg {
                    assert(s1[i] == tt[i]);
                }
            }
            let one: Frac = (1, 1);
            let e: SpecTerms = Seq::empty();
            match atom {
                SpecAtom::Num(n) => {
                    assert(fr(n).0 * 1 == fr(n).0 && fr(n).1 * 1 == fr(n).1) by (nonlinear_arith);
                    assert(fmul(fr(n), one) == fr(n));
                    match signed(sign, n) {
                        Some(c) => {
                            lemma_signed_add(z, n, c, tv, one, !neg);
                            assert(fr(c).0 * 1 == fr(c).0 && fr(c).1 * 1 == fr(c).1) by (nonlinear_arith);
                            assert(fmul(fr(c), one) == fr(c));
                            lemma_make(sign * n.num, n.den as int);
                            assert(terms_value(e, val) == z);
                            lemma_fnz_ops(z, tv);
                            if !neg {
                                lemma_fadd_zero(z, tv);
                                lemma_feq_trans(fadd(z, fr(c)), fadd(z, tv), tv);
                            }
                            lemma_expr_loop_means(ts, pos, e, c, p1, val);
                        },
                        None => {},
                    }
                },
                SpecAtom::VarTerm(v, cf) => {
                    let x = val(v);
                    assert(fnz(x));
                    assert(feq(x, x));
                    lemma_fmul_cong(fr(cf), term_number(tt), x, x);
                    lemma_fnz_ops(term_number(tt), x);
                    match signed(sign, cf) {
                        Some(k) => {
                            lemma_signed_add(z, cf, k, tv, x, !neg);
                            lemma_make(sign * cf.num, cf.den as int);
                            let t1 = assoc_put(e, v, k);
                            lemma_assoc_put_sorted(e, v, k);
                            lemma_put_all_wf(e, v, k);
                            assert(t1 == seq![(v, k)]);
                            assert(t1.drop_first() =~= e);
                            let kx = fmul(fr(k), x);
                            lemma_fnz_ops(fr(k), x);
                            assert(terms_value(t1.drop_first(), val) == z);
                            assert(t1[0] == (v, k));
                            assert(terms_value(t1, val) == fadd(kx, z));
                            // (k*x + 0) + 0 == k*x == 0 + k*x
                            lemma_fadd_zero_right(kx, z);
                            lemma_fnz_ops(kx, z);
                            lemma_fadd_zero_right(fadd(kx, z), fr(zero_spec()));
                            lemma_feq_trans(fadd(fadd(kx, z), fr(zero_spec())), fadd(kx, z), kx);
                            lemma_fadd_zero(z, kx);
                            lemma_fnz_ops(z, kx);
                            lemma_feq_trans(fadd(fadd(kx, z), fr(zero_spec())), kx, fadd(z, kx));
                            lemma_fnz_ops(z, tv);
                            lemma_feq_trans(fadd(fadd(kx, z), fr(zero_spec())), fadd(z, kx), if neg { fsub(z, tv) } else { fadd(z, tv) });
                            if !neg {
                                lemma_fadd_zero(z, tv);
                                lemma_feq_trans(fadd(fadd(kx, z), fr(zero_spec())), fadd(z, tv), tv);
                            }
                            lemma_expr_loop_means(ts, pos, t1, zero_spec(), p1, val);
                        },
                        None => {},
                    }
                },
            }
        },
        _ => {},
    }
}

/// The place of the first '=' among the tokens, or their number where there is none.
pub open spec fn first_equals(ts: Seq<SpecToken>) -> int
    decreases ts.len(),
{
    if ts.len() == 0 {
        0
    } else if ts[0] is Equals {
        0
    } else {
        1 + first_equals(ts.drop_first())
    }
}

proof fn lemma_first_equals(ts: Seq<SpecToken>, p: int)
    requires
        0 <= p < ts.len(),
        ts[p] is Equals,
        forall|i: int| 0 <= i < p ==> !(#[trigger] ts[i] is Equals),
    ensures
        first_equals(ts) == p,
    decreases p,
{
    if p > 0 {
        let t = ts.drop_first();
        assert(!(ts[0] is Equals));
        assert forall|i: int| 0 <= i < p - 1 implies !(#[trigger] t[i] is Equals) by {
            assert(t[i] == ts[i + 1]);
        }
        lemma_first_equals(t, p - 1);
    }
}

/// The normal form of a line means what the line says: where a line `lhs = rhs` is
/// brought into the form `sum(c_v * v) = k`, any values (with non-zero denominators)
/// given to the names satisfy the normal form exactly when the two sides of the line,
/// read from its tokens, have the same value. A side is read as its terms, added or
/// subtracted by the sign before each (a leading '-' subtracting the first from
/// zero); a term as the numbers of its factors, multiplied and divided from left to
/// right, times the value of its name where it has one.
pub proof fn law_normal_form_means_the_line(s: Seq<char>, val: spec_fn(Seq<char>) -> Frac)
    requires
        val_nz(val),
    ensures
        equation_spec(s) matches Some(Ok((terms, k))) ==> ({
            let ts = lex(s)->Ok_0;
            let e = first_equals(ts);
            &&& 0 <= e < ts.len()
            &&& (feq(terms_value(terms, val), fr(k)) <==> feq(
                side_value(ts.subrange(0, e), val),
                side_value(ts.subrange(e + 1, ts.len() as int), val),
            ))
        }),
{
    if equation_spec(s) is Some && equation_spec(s)->Some_0 is Ok {
        let ts = lex(s)->Ok_0;
        lemma_expression_means(ts, 0, val);
        let (lt, lc, p) = expression_spec(ts, 0)->Some_0->Ok_0;
        lemma_expression_means(ts, p + 1, val);
        let (rt, rc, p2) = expression_spec(ts, p + 1)->Some_0->Ok_0;
        assert(p2 == ts.len());
        let sl = ts.subrange(0, p);
        assert forall|i: int| 0 <= i < p implies !(#[trigger] ts[i] is Equals) by {
            assert(ts[i] == sl[i]);
        }
        lemma_first_equals(ts, p);
        law_normal_form_is_equivalent(s, val);
        let x = fadd(terms_value(lt, val), fr(lc));
        let y = fadd(terms_value(rt, val), fr(rc));
        let a = side_value(ts.subrange(0, p), val);
        let b = side_value(ts.subrange(p + 1, ts.len() as int), val);
        lemma_terms_value_nz(lt, val);
        lemma_terms_value_nz(rt, val);
        lemma_fnz_ops(terms_value(lt, val), fr(lc));
        lemma_fnz_ops(terms_value(rt, val), fr(rc));
        if feq(x, y) {
            lemma_feq_trans(a, x, y);
            lemma_feq_trans(a, y, b);
        }
        if feq(a, b) {
            lemma_feq_trans(x, a, b);
            lemma_feq_trans(x, b, y);
        }
    }
}

} // verus!
