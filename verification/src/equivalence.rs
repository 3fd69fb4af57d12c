use vstd::prelude::*;
use crate::frac::{
    fadd, feq, fmul, fnz, fr, fsub, fzero, lemma_fadd_assoc, lemma_fadd_comm, lemma_fadd_cong,
    lemma_fadd_sub, lemma_fadd_sub_cancel, lemma_fadd_sub_shared, lemma_fadd_zero,
    lemma_fadd_zero_right, lemma_feq_trans, lemma_fmul_cong, lemma_fnz_ops, lemma_fsub_add_sub,
    lemma_fsub_cong, lemma_fsub_eq_move, lemma_fsub_mul, lemma_fsub_sub, lemma_fsub_zero_num,
    lemma_sub_value, Frac,
};
use crate::lexer::lex;
use crate::matrix::coeff_of;
use crate::names::{assoc_get, assoc_put, lemma_assoc_get_sorted, name_lt, sorted_keys};
use crate::parser::{
    all_wf, drop_zero_terms, equation_spec, expression_spec, lemma_expression_sorted,
    lemma_merge_sub_sorted, merge_sub, SpecTerms,
};
use crate::rational::{spec_sub, wf, zero_spec, Rational};

verus! {

// ---------------------------------------------------------------------------
// The value of a list of terms
// ---------------------------------------------------------------------------

/// `sum(coeff * val(name))` over the terms.
pub open spec fn terms_value(s: SpecTerms, val: spec_fn(Seq<char>) -> Frac) -> Frac
    decreases s.len(),
{
    if s.len() == 0 {
        fzero()
    } else {
        fadd(fmul(fr(s[0].1), val(s[0].0)), terms_value(s.drop_first(), val))
    }
}

/// Every value has a non-zero denominator.
pub open spec fn val_nz(val: spec_fn(Seq<char>) -> Frac) -> bool {
    forall|v: Seq<char>| fnz(#[trigger] val(v))
}

pub(crate) proof fn lemma_terms_value_nz(s: SpecTerms, val: spec_fn(Seq<char>) -> Frac)
    requires
        all_wf(s),
        val_nz(val),
    ensures
        fnz(terms_value(s, val)),
    decreases s.len(),
{
    if s.len() > 0 {
        let t = s.drop_first();
        assert forall|i: int| 0 <= i < t.len() implies wf(#[trigger] t[i].1) by {
            assert(t[i] == s[i + 1]);
        }
        lemma_terms_value_nz(t, val);
        assert(wf(s[0].1) && fnz(val(s[0].0)));
        lemma_fnz_ops(fr(s[0].1), val(s[0].0));
        lemma_fnz_ops(fmul(fr(s[0].1), val(s[0].0)), terms_value(t, val));
    }
}

/// A stored coefficient is in lowest terms.
pub(crate) proof fn lemma_coeff_wf(s: SpecTerms, k: Seq<char>)
    requires
        sorted_keys(s),
        all_wf(s),
    ensures
        wf(coeff_of(s, k)),
{
    lemma_assoc_get_sorted(s, k);
    crate::rational::lemma_make(0, 1);
    assert(wf(zero_spec())) by {
        crate::laws::law_built_rationals_are_reduced(0, 1);
    }
    if assoc_get(s, k) is Some {
        if !(exists|j: int| 0 <= j < s.len() && s[j].0 == k) {
            assert(forall|j: int| 0 <= j < s.len() ==> s[j].0 != k);
        }
        let j = choose|j: int| 0 <= j < s.len() && s[j].0 == k;
        assert(assoc_get(s, k) == Some(s[j].1));
        assert(wf(s[j].1));
    }
}

/// The last term, split off.
proof fn lemma_terms_value_last(s: SpecTerms, val: spec_fn(Seq<char>) -> Frac)
    requires
        s.len() > 0,
        all_wf(s),
        val_nz(val),
    ensures
        feq(terms_value(s, val), fadd(terms_value(s.drop_last(), val), fmul(fr(s.last().1), val(s.last().0)))),
    decreases s.len(),
{
    let l = fmul(fr(s.last().1), val(s.last().0));
    assert(wf(s.last().1) && fnz(val(s.last().0)));
    lemma_fnz_ops(fr(s.last().1), val(s.last().0));
    if s.len() == 1 {
        assert(terms_value(s.drop_first(), val) == fzero());
        assert(terms_value(s.drop_last(), val) == fzero());
        assert(s[0] == s.last());
        lemma_fadd_zero_right(l, fzero());
        lemma_fadd_zero(fzero(), l);
        assert(feq(terms_value(s, val), l));
        assert(feq(l, fadd(fzero(), l)));
        lemma_feq_trans(terms_value(s, val), l, fadd(fzero(), l));
    } else {
        let t = s.drop_first();
        assert forall|i: int| 0 <= i < t.len() implies wf(#[trigger] t[i].1) by {
            assert(t[i] == s[i + 1]);
        }
        lemma_terms_value_last(t, val);
        assert(t.last() == s.last());
        assert(t.drop_last() =~= s.drop_last().drop_first());
        assert(s.drop_last()[0] == s[0]);
        let h = fmul(fr(s[0].1), val(s[0].0));
        let r0 = terms_value(t.drop_last(), val);
        assert(wf(s[0].1));
        lemma_fnz_ops(fr(s[0].1), val(s[0].0));
        assert forall|i: int| 0 <= i < t.drop_last().len() implies wf(#[trigger] t.drop_last()[i].1) by {
            assert(t.drop_last()[i] == s[i + 1]);
        }
        lemma_terms_value_nz(t.drop_last(), val);
        lemma_terms_value_nz(t, val);
        // h + rest == h + (r0 + l) == (h + r0) + l
        assert(feq(h, h));
        lemma_fadd_cong(h, h, terms_value(t, val), fadd(r0, l));
        lemma_fadd_assoc(h, r0, l);
        lemma_fnz_ops(r0, l);
        lemma_fnz_ops(h, fadd(r0, l));
        lemma_feq_trans(terms_value(s, val), fadd(h, fadd(r0, l)), fadd(fadd(h, r0), l));
    }
}

/// Storing `v` under `k` in a sorted list changes its value by `(v - e) * val(k)`,
/// `e` the coefficient stored before (zero where none).
pub(crate) proof fn lemma_terms_value_put(s: SpecTerms, k: Seq<char>, v: Rational, val: spec_fn(Seq<char>) -> Frac)
    requires
        sorted_keys(s),
        all_wf(s),
        wf(v),
        val_nz(val),
    ensures
        feq(
            terms_value(assoc_put(s, k, v), val),
            fadd(fsub(terms_value(s, val), fmul(fr(coeff_of(s, k)), val(k))), fmul(fr(v), val(k))),
        ),
    decreases s.len(),
{
    let x = val(k);
    let vx = fmul(fr(v), x);
    let p = assoc_put(s, k, v);
    let ts = terms_value(s, val);
    let ex = fmul(fr(coeff_of(s, k)), x);
    lemma_terms_value_nz(s, val);
    assert(fnz(x));
    lemma_fnz_ops(fr(v), x);
    lemma_assoc_get_sorted(s, k);
    lemma_coeff_wf(s, k);
    lemma_fnz_ops(fr(coeff_of(s, k)), x);
    lemma_fnz_ops(ts, ex);
    if s.len() == 0 {
        assert(p == seq![(k, v)]);
        assert(p.drop_first().len() == 0);
        assert(terms_value(p.drop_first(), val) == fzero());
        assert(p[0] == (k, v));
        // both sides are v*x
        lemma_fadd_zero_right(vx, fzero());
        assert(ex.0 == 0) by (nonlinear_arith)
            requires
                ex.0 == 0 * x.0,
        ;
        assert(fsub(fzero(), ex).0 == 0) by (nonlinear_arith)
            requires
                fsub(fzero(), ex).0 == 0 * ex.1 - ex.0 * 1,
                ex.0 == 0,
        ;
        lemma_fadd_zero(fsub(fzero(), ex), vx);
        lemma_fnz_ops(fzero(), ex);
        lemma_feq_trans(terms_value(p, val), vx, fadd(fsub(ts, ex), vx));
    } else if s[0].0 == k {
        let r = terms_value(s.drop_first(), val);
        assert(p == s.update(0, (k, v)));
        assert(p.drop_first() =~= s.drop_first());
        assert(coeff_of(s, k) == s[0].1);
        assert(ts == fadd(ex, r));
        // v*x + r == ((e*x + r) - e*x) + v*x
        lemma_fadd_sub_cancel(ex, r);
        assert(feq(vx, vx));
        lemma_fadd_cong(fsub(fadd(ex, r), ex), r, vx, vx);
        lemma_fadd_comm(r, vx);
        assert forall|i: int| 0 <= i < s.drop_first().len() implies wf(#[trigger] s.drop_first()[i].1) by {
            assert(s.drop_first()[i] == s[i + 1]);
        }
        lemma_terms_value_nz(s.drop_first(), val);
        lemma_fnz_ops(r, vx);
        lemma_feq_trans(fadd(fsub(ts, ex), vx), fadd(r, vx), fadd(vx, r));
    } else if name_lt(k, s[0].0) {
        assert(p == seq![(k, v)] + s);
        assert(p.drop_first() =~= s);
        assert(p[0] == (k, v));
        assert forall|j: int| 0 <= j < s.len() implies s[j].0 != k by {
            if j > 0 {
                assert(name_lt(s[0].0, s[j].0));
                crate::names::lemma_name_lt_transitive(k, s[0].0, s[j].0);
            }
            crate::names::lemma_name_lt_irreflexive(k);
        }
        assert(coeff_of(s, k) == zero_spec());
        assert(ex.0 == 0) by (nonlinear_arith)
            requires
                ex.0 == 0 * x.0,
        ;
        lemma_fsub_zero_num(ts, ex);
        assert(feq(vx, vx));
        lemma_fadd_cong(fsub(ts, ex), ts, vx, vx);
        lemma_fadd_comm(ts, vx);
        lemma_fnz_ops(ts, vx);
        lemma_feq_trans(fadd(fsub(ts, ex), vx), fadd(ts, vx), fadd(vx, ts));
    } else {
        let rest = s.drop_first();
        assert forall|i: int, j: int| 0 <= i < j < rest.len() implies name_lt(#[trigger] rest[i].0, #[trigger] rest[j].0) by {
            assert(rest[i] == s[i + 1] && rest[j] == s[j + 1]);
        }
        assert forall|i: int| 0 <= i < rest.len() implies wf(#[trigger] rest[i].1) by {
            assert(rest[i] == s[i + 1]);
        }
        lemma_terms_value_put(rest, k, v, val);
        let q = assoc_put(rest, k, v);
        assert(p == seq![s[0]] + q);
        assert(p.drop_first() =~= q);
        assert(p[0] == s[0]);
        assert(coeff_of(s, k) == coeff_of(rest, k));
        let h = fmul(fr(s[0].1), val(s[0].0));
        let r = terms_value(rest, val);
        assert(wf(s[0].1));
        lemma_fnz_ops(fr(s[0].1), val(s[0].0));
        lemma_terms_value_nz(rest, val);
        // h + put(rest) == h + ((r - ex) + vx) == (h + (r - ex)) + vx == ((h + r) - ex) + vx
        assert(feq(h, h));
        lemma_fadd_cong(h, h, terms_value(q, val), fadd(fsub(r, ex), vx));
        lemma_fadd_assoc(h, fsub(r, ex), vx);
        lemma_fadd_sub(h, r, ex);
        lemma_fadd_cong(fadd(h, fsub(r, ex)), fsub(fadd(h, r), ex), vx, vx);
        lemma_fnz_ops(r, ex);
        lemma_fnz_ops(fsub(r, ex), vx);
        lemma_fnz_ops(h, fadd(fsub(r, ex), vx));
        lemma_fnz_ops(h, fsub(r, ex));
        lemma_fnz_ops(fadd(h, fsub(r, ex)), vx);
        lemma_feq_trans(terms_value(p, val), fadd(h, fadd(fsub(r, ex), vx)), fadd(fadd(h, fsub(r, ex)), vx));
        lemma_feq_trans(terms_value(p, val), fadd(fadd(h, fsub(r, ex)), vx), fadd(fsub(fadd(h, r), ex), vx));
    }
}

/// Merging subtracts: the value of `merge_sub(acc, rt)` is that of `acc` minus that
/// of `rt`.
proof fn lemma_merge_sub_value(acc: SpecTerms, rt: SpecTerms, val: spec_fn(Seq<char>) -> Frac)
    requires
        sorted_keys(acc),
        all_wf(acc),
        all_wf(rt),
        val_nz(val),
    ensures
        merge_sub(acc, rt) matches Some(all) ==> feq(terms_value(all, val), fsub(terms_value(acc, val), terms_value(rt, val))),
    decreases rt.len(),
{
    lemma_terms_value_nz(acc, val);
    lemma_terms_value_nz(rt, val);
    if rt.len() == 0 {
        lemma_fsub_zero_num(terms_value(acc, val), fzero());
        assert(feq(terms_value(acc, val), fsub(terms_value(acc, val), fzero())));
    } else {
        let r0 = rt.drop_last();
        assert forall|i: int| 0 <= i < r0.len() implies wf(#[trigger] r0[i].1) by {
            assert(r0[i] == rt[i]);
        }
        lemma_merge_sub_value(acc, r0, val);
        lemma_merge_sub_sorted(acc, r0);
        match merge_sub(acc, r0) {
            Some(a) => {
                let (var, coeff) = rt.last();
                let e = coeff_of(a, var);
                lemma_sub_value(e, coeff);
                match spec_sub(e, coeff) {
                    Some(nv) => {
                        crate::rational::lemma_make(e.num * coeff.den - coeff.num * e.den, e.den * coeff.den);
                        assert(wf(nv));
                        lemma_terms_value_put(a, var, nv, val);
                        lemma_terms_value_last(rt, val);
                        let x = val(var);
                        let ta = terms_value(a, val);
                        let tacc = terms_value(acc, val);
                        let t0 = terms_value(r0, val);
                        let ex = fmul(fr(e), x);
                        let cx = fmul(fr(coeff), x);
                        let nx = fmul(fr(nv), x);
                        lemma_terms_value_nz(a, val);
                        lemma_terms_value_nz(r0, val);
                        lemma_assoc_get_sorted(a, var);
                        lemma_coeff_wf(a, var);
                        assert(wf(coeff)) by {
                            assert(rt.last() == rt[rt.len() - 1]);
                        }
                        assert(fnz(x));
                        lemma_fnz_ops(fr(e), x);
                        lemma_fnz_ops(fr(coeff), x);
                        lemma_fnz_ops(fr(nv), x);
                        lemma_fnz_ops(fr(e), fr(coeff));
                        // nv*x == (e - c)*x == e*x - c*x
                        assert(feq(x, x));
                        lemma_fmul_cong(fr(nv), fsub(fr(e), fr(coeff)), x, x);
                        lemma_fsub_mul(fr(e), fr(coeff), x);
                        lemma_fnz_ops(fsub(fr(e), fr(coeff)), x);
                        lemma_feq_trans(nx, fmul(fsub(fr(e), fr(coeff)), x), fsub(ex, cx));
                        // (ta - ex) + (ex - cx) == (ta + ex) - (ex + cx) == ta - cx
                        assert(feq(fsub(ta, ex), fsub(ta, ex)));
                        lemma_fadd_cong(fsub(ta, ex), fsub(ta, ex), nx, fsub(ex, cx));
                        lemma_fsub_add_sub(ta, ex, ex, cx);
                        lemma_fadd_sub_shared(ta, ex, cx);
                        lemma_fnz_ops(ta, ex);
                        lemma_fnz_ops(fsub(ta, ex), nx);
                        lemma_fnz_ops(ex, cx);
                        lemma_fnz_ops(fsub(ta, ex), fsub(ex, cx));
                        lemma_fnz_ops(ta, cx);
                        lemma_fnz_ops(fadd(ta, ex), fadd(ex, cx));
                        let all = assoc_put(a, var, nv);
                        lemma_feq_trans(terms_value(all, val), fadd(fsub(ta, ex), nx), fadd(fsub(ta, ex), fsub(ex, cx)));
                        lemma_feq_trans(terms_value(all, val), fadd(fsub(ta, ex), fsub(ex, cx)), fsub(fadd(ta, ex), fadd(ex, cx)));
                        lemma_feq_trans(terms_value(all, val), fsub(fadd(ta, ex), fadd(ex, cx)), fsub(ta, cx));
                        // ta - cx == (tacc - t0) - cx == tacc - (t0 + cx) == tacc - value(rt)
                        assert(feq(cx, cx));
                        lemma_fsub_cong(ta, fsub(tacc, t0), cx, cx);
                        lemma_fsub_sub(tacc, t0, cx);
                        assert(feq(tacc, tacc));
                        lemma_fsub_cong(tacc, tacc, fadd(t0, cx), terms_value(rt, val));
                        lemma_fnz_ops(tacc, t0);
                        lemma_fnz_ops(fsub(tacc, t0), cx);
                        lemma_fnz_ops(t0, cx);
                        lemma_fnz_ops(tacc, fadd(t0, cx));
                        lemma_feq_trans(terms_value(all, val), fsub(ta, cx), fsub(fsub(tacc, t0), cx));
                        lemma_feq_trans(terms_value(all, val), fsub(fsub(tacc, t0), cx), fsub(tacc, fadd(t0, cx)));
                        assert(feq(fadd(t0, cx), terms_value(rt, val)));
                        lemma_feq_trans(terms_value(all, val), fsub(tacc, fadd(t0, cx)), fsub(tacc, terms_value(rt, val)));
                    },
                    None => {},
                }
            },
            None => {},
        }
    }
}

/// Dropping the terms with a zero coefficient keeps the value.
proof fn lemma_drop_zero_value(s: SpecTerms, val: spec_fn(Seq<char>) -> Frac)
    requires
        all_wf(s),
        val_nz(val),
    ensures
        all_wf(drop_zero_terms(s)),
        feq(terms_value(drop_zero_terms(s), val), terms_value(s, val)),
    decreases s.len(),
{
    lemma_terms_value_nz(s, val);
    if s.len() > 0 {
        let t = s.drop_last();
        assert forall|i: int| 0 <= i < t.len() implies wf(#[trigger] t[i].1) by {
            assert(t[i] == s[i]);
        }
        lemma_drop_zero_value(t, val);
        lemma_terms_value_last(s, val);
        let dt = drop_zero_terms(t);
        let l = fmul(fr(s.last().1), val(s.last().0));
        lemma_terms_value_nz(t, val);
        lemma_terms_value_nz(dt, val);
        assert(wf(s.last().1));
        lemma_fnz_ops(fr(s.last().1), val(s.last().0));
        lemma_fnz_ops(terms_value(t, val), l);
        if s.last().1.num == 0 {
            assert(l.0 == 0) by (nonlinear_arith)
                requires
                    l.0 == s.last().1.num * val(s.last().0).0,
                    s.last().1.num == 0,
            ;
            lemma_fadd_zero_right(terms_value(t, val), l);
            lemma_feq_trans(terms_value(dt, val), terms_value(t, val), fadd(terms_value(t, val), l));
            lemma_feq_trans(terms_value(dt, val), fadd(terms_value(t, val), l), terms_value(s, val));
        } else {
            let d = dt.push(s.last());
            assert forall|i: int| 0 <= i < d.len() implies wf(#[trigger] d[i].1) by {
                if i < dt.len() {
                    assert(d[i] == dt[i]);
                }
            }
            lemma_terms_value_last(d, val);
            assert(d.drop_last() =~= dt);
            assert(d.last() == s.last());
            assert(feq(l, l));
            lemma_fadd_cong(terms_value(dt, val), terms_value(t, val), l, l);
            lemma_fnz_ops(terms_value(dt, val), l);
            lemma_feq_trans(terms_value(d, val), fadd(terms_value(dt, val), l), fadd(terms_value(t, val), l));
            assert(feq(fadd(terms_value(t, val), l), terms_value(s, val)));
            lemma_feq_trans(terms_value(d, val), fadd(terms_value(t, val), l), terms_value(s, val));
        }
    }
}

// ---------------------------------------------------------------------------
// The law
// ---------------------------------------------------------------------------

/// The normal form is an equivalent rewriting of the line: where a line `lhs = rhs`
/// is brought into the form `sum(c_v * v) = k`, any values (with non-zero
/// denominators) given to the names satisfy the normal form exactly when the two
/// sides, each read as `sum(coeff * v) + constant`, are equal.
pub proof fn law_normal_form_is_equivalent(s: Seq<char>, val: spec_fn(Seq<char>) -> Frac)
    requires
        val_nz(val),
    ensures
        equation_spec(s) matches Some(Ok((terms, k))) ==> {
            let ts = lex(s)->Ok_0;
            let (lt, lc, p) = expression_spec(ts, 0)->Some_0->Ok_0;
            let (rt, rc, p2) = expression_spec(ts, p + 1)->Some_0->Ok_0;
            feq(terms_value(terms, val), fr(k)) <==> feq(
                fadd(terms_value(lt, val), fr(lc)),
                fadd(terms_value(rt, val), fr(rc)),
            )
        },
{
    match equation_spec(s) {
        Some(Ok((terms, k))) => {
            let ts = lex(s)->Ok_0;
            let (lt, lc, p) = expression_spec(ts, 0)->Some_0->Ok_0;
            let (rt, rc, p2) = expression_spec(ts, p + 1)->Some_0->Ok_0;
            lemma_expression_sorted(ts, 0);
            lemma_expression_sorted(ts, p + 1);
            let all = merge_sub(lt, rt)->Some_0;
            lemma_merge_sub_value(lt, rt, val);
            lemma_merge_sub_sorted(lt, rt);
            lemma_drop_zero_value(all, val);
            lemma_sub_value(rc, lc);
            let a = terms_value(lt, val);
            let b = terms_value(rt, val);
            lemma_terms_value_nz(lt, val);
            lemma_terms_value_nz(rt, val);
            lemma_terms_value_nz(all, val);
            lemma_terms_value_nz(terms, val);
            assert(wf(lc) && wf(rc));
            lemma_fnz_ops(a, b);
            lemma_fnz_ops(fr(rc), fr(lc));
            // value(terms) == a - b and k == rc - lc
            lemma_feq_trans(terms_value(terms, val), terms_value(all, val), fsub(a, b));
            lemma_fsub_eq_move(a, b, fr(rc), fr(lc));
            if feq(terms_value(terms, val), fr(k)) {
                // a - b == k == rc - lc
                assert(feq(fsub(a, b), terms_value(terms, val)));
                lemma_feq_trans(fsub(a, b), terms_value(terms, val), fr(k));
                lemma_feq_trans(fsub(a, b), fr(k), fsub(fr(rc), fr(lc)));
                lemma_fadd_comm(fr(rc), b);
                lemma_fnz_ops(fr(rc), b);
                lemma_fnz_ops(a, fr(lc));
                lemma_feq_trans(fadd(a, fr(lc)), fadd(fr(rc), b), fadd(b, fr(rc)));
            }
            if feq(fadd(a, fr(lc)), fadd(b, fr(rc))) {
                lemma_fadd_comm(b, fr(rc));
                lemma_fnz_ops(b, fr(rc));
                lemma_fnz_ops(a, fr(lc));
                lemma_feq_trans(fadd(a, fr(lc)), fadd(b, fr(rc)), fadd(fr(rc), b));
                lemma_feq_trans(terms_value(terms, val), fsub(a, b), fsub(fr(rc), fr(lc)));
                assert(feq(fsub(fr(rc), fr(lc)), fr(k)));
                lemma_feq_trans(terms_value(terms, val), fsub(fr(rc), fr(lc)), fr(k));
            }
        },
        _ => {},
    }
}

} // verus!
