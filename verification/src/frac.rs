use vstd::prelude::*;
use vstd::arithmetic::mul::{
    lemma_mul_is_distributive_add, lemma_mul_is_distributive_add_other_way,
    lemma_mul_is_distributive_sub, lemma_mul_is_distributive_sub_other_way,
};
use crate::rational::{lemma_make, spec_div, spec_mul, spec_sub, Rational};

verus! {

// ---------------------------------------------------------------------------
// Fractions as pairs of integers
// ---------------------------------------------------------------------------

/// A fraction `(numerator, denominator)` over the integers, not necessarily reduced.
pub type Frac = (int, int);

/// The fraction a rational denotes.
pub open spec fn fr(r: Rational) -> Frac {
    (r.num as int, r.den as int)
}

/// A non-zero denominator.
pub open spec fn fnz(a: Frac) -> bool {
    a.1 != 0
}

/// `a` and `b` denote the same number.
pub open spec fn feq(a: Frac, b: Frac) -> bool {
    a.0 * b.1 == b.0 * a.1
}

pub open spec fn fzero() -> Frac {
    (0, 1)
}

pub open spec fn fadd(a: Frac, b: Frac) -> Frac {
    (a.0 * b.1 + b.0 * a.1, a.1 * b.1)
}

pub open spec fn fsub(a: Frac, b: Frac) -> Frac {
    (a.0 * b.1 - b.0 * a.1, a.1 * b.1)
}

pub open spec fn fmul(a: Frac, b: Frac) -> Frac {
    (a.0 * b.0, a.1 * b.1)
}

// ---------------------------------------------------------------------------
// Equivalence and congruence
// ---------------------------------------------------------------------------

pub proof fn lemma_fnz_ops(a: Frac, b: Frac)
    requires
        fnz(a),
        fnz(b),
    ensures
        fnz(fadd(a, b)),
        fnz(fsub(a, b)),
        fnz(fmul(a, b)),
{
    assert(a.1 * b.1 != 0) by (nonlinear_arith)
        requires
            a.1 != 0,
            b.1 != 0,
    ;
}

pub proof fn lemma_feq_trans(a: Frac, b: Frac, c: Frac)
    requires
        fnz(b),
        feq(a, b),
        feq(b, c),
    ensures
        feq(a, c),
{
    assert(a.0 * c.1 == c.0 * a.1) by (nonlinear_arith)
        requires
            a.0 * b.1 == b.0 * a.1,
            b.0 * c.1 == c.0 * b.1,
            b.1 != 0,
    {
        assert(a.0 * c.1 * b.1 == b.0 * a.1 * c.1) by (nonlinear_arith)
            requires
                a.0 * b.1 == b.0 * a.1,
        ;
        assert(c.0 * a.1 * b.1 == b.0 * c.1 * a.1) by (nonlinear_arith)
            requires
                b.0 * c.1 == c.0 * b.1,
        ;
    }
}

/// Equal fractions with non-zero denominators are zero together.
pub proof fn lemma_feq_zero(a: Frac, b: Frac)
    requires
        fnz(a),
        fnz(b),
        feq(a, b),
    ensures
        a.0 == 0 <==> b.0 == 0,
{
    if a.0 == 0 {
        assert(b.0 * a.1 == 0);
        assert(b.0 == 0) by (nonlinear_arith)
            requires
                b.0 * a.1 == 0,
                a.1 != 0,
        ;
    }
    if b.0 == 0 {
        assert(a.0 * b.1 == 0);
        assert(a.0 == 0) by (nonlinear_arith)
            requires
                a.0 * b.1 == 0,
                b.1 != 0,
        ;
    }
}

pub proof fn lemma_fadd_cong(a: Frac, a2: Frac, b: Frac, b2: Frac)
    requires
        feq(a, a2),
        feq(b, b2),
    ensures
        feq(fadd(a, b), fadd(a2, b2)),
{
    let (x0, x1) = a;
    let (y0, y1) = a2;
    let (p0, p1) = b;
    let (q0, q1) = b2;
    lemma_mul_is_distributive_add_other_way(y1 * q1, x0 * p1, p0 * x1);
    lemma_mul_is_distributive_add_other_way(x1 * p1, y0 * q1, q0 * y1);
    assert((x0 * p1) * (y1 * q1) == (x0 * y1) * (p1 * q1)) by (nonlinear_arith);
    assert((p0 * x1) * (y1 * q1) == (p0 * q1) * (x1 * y1)) by (nonlinear_arith);
    assert((y0 * q1) * (x1 * p1) == (y0 * x1) * (p1 * q1)) by (nonlinear_arith);
    assert((q0 * y1) * (x1 * p1) == (q0 * p1) * (x1 * y1)) by (nonlinear_arith);
}

pub proof fn lemma_fsub_cong(a: Frac, a2: Frac, b: Frac, b2: Frac)
    requires
        feq(a, a2),
        feq(b, b2),
    ensures
        feq(fsub(a, b), fsub(a2, b2)),
{
    let (x0, x1) = a;
    let (y0, y1) = a2;
    let (p0, p1) = b;
    let (q0, q1) = b2;
    lemma_mul_is_distributive_sub_other_way(y1 * q1, x0 * p1, p0 * x1);
    lemma_mul_is_distributive_sub_other_way(x1 * p1, y0 * q1, q0 * y1);
    assert((x0 * p1) * (y1 * q1) == (x0 * y1) * (p1 * q1)) by (nonlinear_arith);
    assert((p0 * x1) * (y1 * q1) == (p0 * q1) * (x1 * y1)) by (nonlinear_arith);
    assert((y0 * q1) * (x1 * p1) == (y0 * x1) * (p1 * q1)) by (nonlinear_arith);
    assert((q0 * y1) * (x1 * p1) == (q0 * p1) * (x1 * y1)) by (nonlinear_arith);
}

pub proof fn lemma_fmul_cong(a: Frac, a2: Frac, b: Frac, b2: Frac)
    requires
        feq(a, a2),
        feq(b, b2),
    ensures
        feq(fmul(a, b), fmul(a2, b2)),
{
    let (x0, x1) = a;
    let (y0, y1) = a2;
    let (p0, p1) = b;
    let (q0, q1) = b2;
    assert((x0 * p0) * (y1 * q1) == (x0 * y1) * (p0 * q1)) by (nonlinear_arith);
    assert((y0 * q0) * (x1 * p1) == (y0 * x1) * (q0 * p1)) by (nonlinear_arith);
}

/// Scaling numerator and denominator by the same factor.
pub proof fn lemma_feq_scale(a: Frac, k: int)
    ensures
        feq((k * a.0, k * a.1), a),
{
    let (a0, a1) = a;
    assert((k * a0) * a1 == a0 * (k * a1)) by (nonlinear_arith);
}

// ---------------------------------------------------------------------------
// Ring identities, up to `feq`
// ---------------------------------------------------------------------------

/// `(u - v) * w == u*w - v*w`
pub proof fn lemma_fsub_mul(u: Frac, v: Frac, w: Frac)
    ensures
        feq(fmul(fsub(u, v), w), fsub(fmul(u, w), fmul(v, w))),
{
    let (u0, u1) = u;
    let (v0, v1) = v;
    let (w0, w1) = w;
    let x = fmul(fsub(u, v), w);
    let y = fsub(fmul(u, w), fmul(v, w));
    lemma_mul_is_distributive_sub_other_way(w0, u0 * v1, v0 * u1);
    lemma_mul_is_distributive_sub(w1, (u0 * v1) * w0, (v0 * u1) * w0);
    assert((u0 * w0) * (v1 * w1) == w1 * ((u0 * v1) * w0)) by (nonlinear_arith);
    assert((v0 * w0) * (u1 * w1) == w1 * ((v0 * u1) * w0)) by (nonlinear_arith);
    assert((u1 * w1) * (v1 * w1) == w1 * ((u1 * v1) * w1)) by (nonlinear_arith);
    assert(y == (w1 * x.0, w1 * x.1));
    lemma_feq_scale(x, w1);
}

/// `(u * v) * w == u * (v * w)`
pub proof fn lemma_fmul_assoc(u: Frac, v: Frac, w: Frac)
    ensures
        feq(fmul(fmul(u, v), w), fmul(u, fmul(v, w))),
{
    let (u0, u1) = u;
    let (v0, v1) = v;
    let (w0, w1) = w;
    assert((u0 * v0) * w0 == u0 * (v0 * w0)) by (nonlinear_arith);
    assert((u1 * v1) * w1 == u1 * (v1 * w1)) by (nonlinear_arith);
}

/// `u * v == v * u`
pub proof fn lemma_fmul_comm(u: Frac, v: Frac)
    ensures
        feq(fmul(u, v), fmul(v, u)),
{
    let (u0, u1) = u;
    let (v0, v1) = v;
    assert(u0 * v0 == v0 * u0) by (nonlinear_arith);
    assert(u1 * v1 == v1 * u1) by (nonlinear_arith);
}

/// `u*v + u*w == u * (v + w)`
pub proof fn lemma_fmul_distrib(u: Frac, v: Frac, w: Frac)
    ensures
        feq(fadd(fmul(u, v), fmul(u, w)), fmul(u, fadd(v, w))),
{
    let (u0, u1) = u;
    let (v0, v1) = v;
    let (w0, w1) = w;
    let x = fadd(fmul(u, v), fmul(u, w));
    let y = fmul(u, fadd(v, w));
    lemma_mul_is_distributive_add(u0, v0 * w1, w0 * v1);
    lemma_mul_is_distributive_add(u1, u0 * (v0 * w1), u0 * (w0 * v1));
    assert((u0 * v0) * (u1 * w1) == u1 * (u0 * (v0 * w1))) by (nonlinear_arith);
    assert((u0 * w0) * (u1 * v1) == u1 * (u0 * (w0 * v1))) by (nonlinear_arith);
    assert((u1 * v1) * (u1 * w1) == u1 * (u1 * (v1 * w1))) by (nonlinear_arith);
    assert(x == (u1 * y.0, u1 * y.1));
    lemma_feq_scale(y, u1);
}

/// `(u - v) + (w - z) == (u + w) - (v + z)`
pub proof fn lemma_fsub_add_sub(u: Frac, v: Frac, w: Frac, z: Frac)
    ensures
        feq(fadd(fsub(u, v), fsub(w, z)), fsub(fadd(u, w), fadd(v, z))),
{
    let (u0, u1) = u;
    let (v0, v1) = v;
    let (w0, w1) = w;
    let (z0, z1) = z;
    lemma_mul_is_distributive_sub_other_way(w1 * z1, u0 * v1, v0 * u1);
    lemma_mul_is_distributive_sub_other_way(u1 * v1, w0 * z1, z0 * w1);
    lemma_mul_is_distributive_add_other_way(v1 * z1, u0 * w1, w0 * u1);
    lemma_mul_is_distributive_add_other_way(u1 * w1, v0 * z1, z0 * v1);
    assert((u0 * v1) * (w1 * z1) == (u0 * w1) * (v1 * z1)) by (nonlinear_arith);
    assert((v0 * u1) * (w1 * z1) == (v0 * z1) * (u1 * w1)) by (nonlinear_arith);
    assert((w0 * z1) * (u1 * v1) == (w0 * u1) * (v1 * z1)) by (nonlinear_arith);
    assert((z0 * w1) * (u1 * v1) == (z0 * v1) * (u1 * w1)) by (nonlinear_arith);
    assert((u1 * v1) * (w1 * z1) == (u1 * w1) * (v1 * z1)) by (nonlinear_arith);
}

/// `(a - b) - c == a - (b + c)`
pub proof fn lemma_fsub_sub(a: Frac, b: Frac, c: Frac)
    ensures
        feq(fsub(fsub(a, b), c), fsub(a, fadd(b, c))),
{
    let (a0, a1) = a;
    let (b0, b1) = b;
    let (c0, c1) = c;
    lemma_mul_is_distributive_sub_other_way(c1, a0 * b1, b0 * a1);
    lemma_mul_is_distributive_add_other_way(a1, b0 * c1, c0 * b1);
    assert((a0 * b1) * c1 == a0 * (b1 * c1)) by (nonlinear_arith);
    assert((b0 * a1) * c1 == (b0 * c1) * a1) by (nonlinear_arith);
    assert(c0 * (a1 * b1) == (c0 * b1) * a1) by (nonlinear_arith);
    assert((a1 * b1) * c1 == a1 * (b1 * c1)) by (nonlinear_arith);
}

/// `u + (v - w) == (u + v) - w`
pub proof fn lemma_fadd_sub(u: Frac, v: Frac, w: Frac)
    ensures
        feq(fadd(u, fsub(v, w)), fsub(fadd(u, v), w)),
{
    let (u0, u1) = u;
    let (v0, v1) = v;
    let (w0, w1) = w;
    lemma_mul_is_distributive_sub_other_way(u1, v0 * w1, w0 * v1);
    lemma_mul_is_distributive_add_other_way(w1, u0 * v1, v0 * u1);
    assert(u0 * (v1 * w1) == (u0 * v1) * w1) by (nonlinear_arith);
    assert((v0 * w1) * u1 == (v0 * u1) * w1) by (nonlinear_arith);
    assert((w0 * v1) * u1 == w0 * (u1 * v1)) by (nonlinear_arith);
    assert(u1 * (v1 * w1) == (u1 * v1) * w1) by (nonlinear_arith);
}

/// `(b - l) + l == b`
pub proof fn lemma_fsub_add_cancel(b: Frac, l: Frac)
    ensures
        feq(fadd(fsub(b, l), l), b),
{
    let (b0, b1) = b;
    let (l0, l1) = l;
    let x = fadd(fsub(b, l), l);
    lemma_mul_is_distributive_sub_other_way(l1, b0 * l1, l0 * b1);
    assert((l0 * b1) * l1 == l0 * (b1 * l1)) by (nonlinear_arith);
    assert((b0 * l1) * l1 == (l1 * l1) * b0) by (nonlinear_arith);
    assert((b1 * l1) * l1 == (l1 * l1) * b1) by (nonlinear_arith);
    assert(x == ((l1 * l1) * b0, (l1 * l1) * b1));
    lemma_feq_scale(b, l1 * l1);
}

/// Adding a fraction with a zero numerator changes nothing.
pub proof fn lemma_fadd_zero(z: Frac, l: Frac)
    requires
        z.0 == 0,
    ensures
        feq(fadd(z, l), l),
{
    let (z0, z1) = z;
    let (l0, l1) = l;
    assert(z0 * l1 == 0);
    assert(l0 * z1 == z1 * l0) by (nonlinear_arith);
    assert(fadd(z, l) == (z1 * l0, z1 * l1));
    lemma_feq_scale(l, z1);
}

/// `(1/1) * a == a` and `a * (1/1) == a`
pub proof fn lemma_fmul_one(a: Frac)
    ensures
        feq(fmul((1, 1), a), a),
        feq(fmul(a, (1, 1)), a),
{
    let (a0, a1) = a;
    assert(1 * a0 == a0 && 1 * a1 == a1 && a0 * 1 == a0 && a1 * 1 == a1);
}

/// `a - 0 == a`
pub proof fn lemma_fsub_zero(a: Frac)
    ensures
        feq(fsub(a, fzero()), a),
{
    let (a0, a1) = a;
    assert(a0 * 1 - 0 * a1 == a0 && a1 * 1 == a1);
}

/// `(u + v) * w == u*w + v*w`
pub proof fn lemma_fadd_mul(u: Frac, v: Frac, w: Frac)
    ensures
        feq(fmul(fadd(u, v), w), fadd(fmul(u, w), fmul(v, w))),
{
    let (u0, u1) = u;
    let (v0, v1) = v;
    let (w0, w1) = w;
    let x = fmul(fadd(u, v), w);
    let y = fadd(fmul(u, w), fmul(v, w));
    lemma_mul_is_distributive_add_other_way(w0, u0 * v1, v0 * u1);
    lemma_mul_is_distributive_add(w1, (u0 * v1) * w0, (v0 * u1) * w0);
    assert((u0 * w0) * (v1 * w1) == w1 * ((u0 * v1) * w0)) by (nonlinear_arith);
    assert((v0 * w0) * (u1 * w1) == w1 * ((v0 * u1) * w0)) by (nonlinear_arith);
    assert((u1 * w1) * (v1 * w1) == w1 * ((u1 * v1) * w1)) by (nonlinear_arith);
    assert(y == (w1 * x.0, w1 * x.1));
    lemma_feq_scale(x, w1);
}

/// `(a * t) * p == (a * p) * t`
pub proof fn lemma_fmul_swap(a: Frac, t: Frac, p: Frac)
    ensures
        feq(fmul(fmul(a, t), p), fmul(fmul(a, p), t)),
{
    let (a0, a1) = a;
    let (t0, t1) = t;
    let (p0, p1) = p;
    assert((a0 * t0) * p0 == (a0 * p0) * t0) by (nonlinear_arith);
    assert((a1 * t1) * p1 == (a1 * p1) * t1) by (nonlinear_arith);
}

/// Adding a fraction with a zero numerator on the right changes nothing.
pub proof fn lemma_fadd_zero_right(l: Frac, z: Frac)
    requires
        z.0 == 0,
    ensures
        feq(fadd(l, z), l),
{
    let (z0, z1) = z;
    let (l0, l1) = l;
    assert(z0 * l1 == 0);
    assert(l0 * z1 == z1 * l0) by (nonlinear_arith);
    assert(l1 * z1 == z1 * l1) by (nonlinear_arith);
    assert(fadd(l, z) == (z1 * l0, z1 * l1));
    lemma_feq_scale(l, z1);
}

/// `u + v == v + u`
pub proof fn lemma_fadd_comm(u: Frac, v: Frac)
    ensures
        feq(fadd(u, v), fadd(v, u)),
{
    let (u0, u1) = u;
    let (v0, v1) = v;
    assert(u1 * v1 == v1 * u1) by (nonlinear_arith);
}

/// `u + (v + w) == (u + v) + w`
pub proof fn lemma_fadd_assoc(u: Frac, v: Frac, w: Frac)
    ensures
        feq(fadd(u, fadd(v, w)), fadd(fadd(u, v), w)),
{
    let (u0, u1) = u;
    let (v0, v1) = v;
    let (w0, w1) = w;
    lemma_mul_is_distributive_add_other_way(u1, v0 * w1, w0 * v1);
    lemma_mul_is_distributive_add_other_way(w1, u0 * v1, v0 * u1);
    assert(u0 * (v1 * w1) == (u0 * v1) * w1) by (nonlinear_arith);
    assert((v0 * w1) * u1 == (v0 * u1) * w1) by (nonlinear_arith);
    assert((w0 * v1) * u1 == w0 * (u1 * v1)) by (nonlinear_arith);
    assert(u1 * (v1 * w1) == (u1 * v1) * w1) by (nonlinear_arith);
}

/// Subtracting a fraction with a zero numerator changes nothing.
pub proof fn lemma_fsub_zero_num(a: Frac, z: Frac)
    requires
        z.0 == 0,
    ensures
        feq(fsub(a, z), a),
{
    let (a0, a1) = a;
    let (z0, z1) = z;
    assert(z0 * a1 == 0);
    assert(a0 * z1 == z1 * a0) by (nonlinear_arith);
    assert(a1 * z1 == z1 * a1) by (nonlinear_arith);
    assert(fsub(a, z) == (z1 * a0, z1 * a1));
    lemma_feq_scale(a, z1);
}

/// `(a + r) - a == r`
pub proof fn lemma_fadd_sub_cancel(a: Frac, r: Frac)
    ensures
        feq(fsub(fadd(a, r), a), r),
{
    let (a0, a1) = a;
    let (r0, r1) = r;
    let x = fsub(fadd(a, r), a);
    lemma_mul_is_distributive_add_other_way(a1, a0 * r1, r0 * a1);
    assert((a0 * r1) * a1 == a0 * (a1 * r1)) by (nonlinear_arith);
    assert((r0 * a1) * a1 == (a1 * a1) * r0) by (nonlinear_arith);
    assert((a1 * r1) * a1 == (a1 * a1) * r1) by (nonlinear_arith);
    assert(x == ((a1 * a1) * r0, (a1 * a1) * r1));
    lemma_feq_scale(r, a1 * a1);
}

/// `(a + b) - (b + c) == a - c`
pub proof fn lemma_fadd_sub_shared(a: Frac, b: Frac, c: Frac)
    ensures
        feq(fsub(fadd(a, b), fadd(b, c)), fsub(a, c)),
{
    let (a0, a1) = a;
    let (b0, b1) = b;
    let (c0, c1) = c;
    let x = fsub(fadd(a, b), fadd(b, c));
    let y = fsub(a, c);
    // x = ((a0 b1 + b0 a1) b1 c1 - (b0 c1 + c0 b1) a1 b1, a1 b1 b1 c1) = (b1 * b1) * y
    lemma_mul_is_distributive_add_other_way(b1 * c1, a0 * b1, b0 * a1);
    lemma_mul_is_distributive_add_other_way(a1 * b1, b0 * c1, c0 * b1);
    lemma_mul_is_distributive_sub(b1 * b1, a0 * c1, c0 * a1);
    assert((a0 * b1) * (b1 * c1) == (b1 * b1) * (a0 * c1)) by (nonlinear_arith);
    assert((b0 * a1) * (b1 * c1) == (b0 * c1) * (a1 * b1)) by (nonlinear_arith);
    assert((c0 * b1) * (a1 * b1) == (b1 * b1) * (c0 * a1)) by (nonlinear_arith);
    assert((a1 * b1) * (b1 * c1) == (b1 * b1) * (a1 * c1)) by (nonlinear_arith);
    assert(x == ((b1 * b1) * y.0, (b1 * b1) * y.1));
    lemma_feq_scale(y, b1 * b1);
}

/// Moving terms across an equation: `a - b == c - d` exactly when
/// `a + d == c + b` (for non-zero denominators).
pub proof fn lemma_fsub_eq_move(a: Frac, b: Frac, c: Frac, d: Frac)
    requires
        fnz(a),
        fnz(b),
        fnz(c),
        fnz(d),
    ensures
        feq(fsub(a, b), fsub(c, d)) <==> feq(fadd(a, d), fadd(c, b)),
{
    let (a0, a1) = a;
    let (b0, b1) = b;
    let (c0, c1) = c;
    let (d0, d1) = d;
    // both say a0 b1 c1 d1 - b0 a1 c1 d1 == c0 d1 a1 b1 - d0 c1 a1 b1, up to a non-zero factor
    let x = fsub(a, b);
    let y = fsub(c, d);
    let u = fadd(a, d);
    let v = fadd(c, b);
    lemma_mul_is_distributive_sub_other_way(c1 * d1, a0 * b1, b0 * a1);
    lemma_mul_is_distributive_sub_other_way(a1 * b1, c0 * d1, d0 * c1);
    lemma_mul_is_distributive_add_other_way(c1 * b1, a0 * d1, d0 * a1);
    lemma_mul_is_distributive_add_other_way(a1 * d1, c0 * b1, b0 * c1);
    assert((a0 * b1) * (c1 * d1) == (a0 * d1) * (c1 * b1)) by (nonlinear_arith);
    assert((b0 * a1) * (c1 * d1) == (b0 * c1) * (a1 * d1)) by (nonlinear_arith);
    assert((c0 * d1) * (a1 * b1) == (c0 * b1) * (a1 * d1)) by (nonlinear_arith);
    assert((d0 * c1) * (a1 * b1) == (d0 * a1) * (c1 * b1)) by (nonlinear_arith);
    assert(x.0 * y.1 - y.0 * x.1 == u.0 * v.1 - v.0 * u.1);
}

/// Cancelling a common summand.
pub proof fn lemma_fadd_cancel(u: Frac, w: Frac, l: Frac)
    requires
        fnz(l),
        feq(fadd(u, l), fadd(w, l)),
    ensures
        feq(u, w),
{
    let (u0, u1) = u;
    let (w0, w1) = w;
    let (l0, l1) = l;
    lemma_mul_is_distributive_add_other_way(w1 * l1, u0 * l1, l0 * u1);
    lemma_mul_is_distributive_add_other_way(u1 * l1, w0 * l1, l0 * w1);
    assert((l0 * u1) * (w1 * l1) == (l0 * w1) * (u1 * l1)) by (nonlinear_arith);
    assert((u0 * l1) * (w1 * l1) == (u0 * w1) * (l1 * l1)) by (nonlinear_arith);
    assert((w0 * l1) * (u1 * l1) == (w0 * u1) * (l1 * l1)) by (nonlinear_arith);
    assert(l1 * l1 != 0) by (nonlinear_arith)
        requires
            l1 != 0,
    ;
    assert(u0 * w1 == w0 * u1) by (nonlinear_arith)
        requires
            (u0 * w1) * (l1 * l1) == (w0 * u1) * (l1 * l1),
            l1 * l1 != 0,
    ;
}

/// Cancelling a common non-zero factor.
pub proof fn lemma_fmul_cancel(p: Frac, x: Frac, y: Frac)
    requires
        fnz(p),
        p.0 != 0,
        feq(fmul(p, x), fmul(p, y)),
    ensures
        feq(x, y),
{
    let (p0, p1) = p;
    let (x0, x1) = x;
    let (y0, y1) = y;
    assert((p0 * x0) * (p1 * y1) == (x0 * y1) * (p0 * p1)) by (nonlinear_arith);
    assert((p0 * y0) * (p1 * x1) == (y0 * x1) * (p0 * p1)) by (nonlinear_arith);
    assert(p0 * p1 != 0) by (nonlinear_arith)
        requires
            p0 != 0,
            p1 != 0,
    ;
    assert(x0 * y1 == y0 * x1) by (nonlinear_arith)
        requires
            (x0 * y1) * (p0 * p1) == (y0 * x1) * (p0 * p1),
            p0 * p1 != 0,
    ;
}

// ---------------------------------------------------------------------------
// The arithmetic of rationals, read as fractions
// ---------------------------------------------------------------------------

pub proof fn lemma_mul_value(a: Rational, b: Rational)
    ensures
        spec_mul(a, b) matches Some(c) ==> c.den > 0 && feq(fr(c), fmul(fr(a), fr(b))),
{
    lemma_make(a.num * b.num, a.den * b.den);
}

pub proof fn lemma_sub_value(a: Rational, b: Rational)
    ensures
        spec_sub(a, b) matches Some(c) ==> c.den > 0 && feq(fr(c), fsub(fr(a), fr(b))),
{
    let p = a.num * b.den;
    let q = b.num * a.den;
    lemma_make(p - q, a.den * b.den);
}

/// A quotient times the divisor gives back the dividend.
pub proof fn lemma_div_value(a: Rational, b: Rational)
    ensures
        spec_div(a, b) matches Some(c) ==> c.den > 0 && feq(fmul(fr(c), fr(b)), fr(a)),
{
    lemma_make(a.num * b.den, a.den * b.num);
    if spec_div(a, b) is Some {
        let c = spec_div(a, b).unwrap();
        assert((c.num * b.num) * a.den == a.num * (c.den * b.den)) by (nonlinear_arith)
            requires
                c.num * (a.den * b.num) == (a.num * b.den) * c.den,
        ;
    }
}

} // verus!
