use vstd::prelude::*;
use vstd::arithmetic::mul::lemma_mul_is_commutative;
use crate::number_theory::{abs_int, gcd};
use crate::rational::{
    canon, lemma_canon, lemma_canon_of_wf, lemma_make, lemma_wf_unique, make, one_spec,
    same_value, spec_add, spec_div, spec_mul, spec_neg, spec_sub, wf, zero_spec, Rational,
};

verus! {

// ---------------------------------------------------------------------------
// Rationals
// ---------------------------------------------------------------------------

/// Every rational that `Rational::new` or an arithmetic operation builds is in lowest
/// terms with a positive denominator, and denotes exactly the fraction `n / d` it
/// was built from.
pub proof fn law_built_rationals_are_reduced(n: int, d: int)
    ensures
        make(n, d) matches Some(r) ==> wf(r) && r.num * d == n * r.den,
{
    lemma_make(n, d);
}

/// For reduced rationals, `==` is equality of the fractions they denote.
pub proof fn law_equality_is_value_equality(a: Rational, b: Rational)
    requires
        wf(a),
        wf(b),
    ensures
        a == b <==> same_value(a, b),
{
    if same_value(a, b) {
        lemma_wf_unique(a, b);
    }
}

/// Building a rational from a reduced one gives it back: normalizing is idempotent.
pub proof fn law_new_of_reduced(r: Rational)
    requires
        wf(r),
        r.num != i128::MIN,
    ensures
        make(r.num as int, r.den as int) == Some(r),
{
    lemma_canon_of_wf(r);
}

/// Addition is commutative.
pub proof fn law_add_commutative(a: Rational, b: Rational)
    ensures
        spec_add(a, b) == spec_add(b, a),
{
    lemma_mul_is_commutative(a.den as int, b.den as int);
    assert(a.num * b.den + b.num * a.den == b.num * a.den + a.num * b.den);
}

/// Multiplication is commutative.
pub proof fn law_mul_commutative(a: Rational, b: Rational)
    ensures
        spec_mul(a, b) == spec_mul(b, a),
{
    lemma_mul_is_commutative(a.den as int, b.den as int);
    lemma_mul_is_commutative(a.num as int, b.num as int);
}

/// Zero is neutral for addition and subtraction.
pub proof fn law_add_zero(a: Rational)
    requires
        wf(a),
        a.num != i128::MIN,
    ensures
        spec_add(a, zero_spec()) == Some(a),
        spec_sub(a, zero_spec()) == Some(a),
{
    lemma_canon_of_wf(a);
    assert(a.num * 1 == a.num);
    assert(a.den * 1 == a.den);
}

/// One is neutral for multiplication and division.
pub proof fn law_mul_one(a: Rational)
    requires
        wf(a),
        a.num != i128::MIN,
    ensures
        spec_mul(a, one_spec()) == Some(a),
        spec_div(a, one_spec()) == Some(a),
{
    lemma_canon_of_wf(a);
    assert(a.num * 1 == a.num);
    assert(a.den * 1 == a.den);
}

/// `a - a` is zero wherever it is defined.
pub proof fn law_sub_self(a: Rational)
    requires
        spec_sub(a, a) is Some,
    ensures
        spec_sub(a, a) == Some(zero_spec()),
{
}

/// `a / a` is one wherever it is defined.
pub proof fn law_div_self(a: Rational)
    requires
        spec_div(a, a) is Some,
    ensures
        spec_div(a, a) == Some(one_spec()),
{
    let n = a.num * a.den;
    lemma_mul_is_commutative(a.num as int, a.den as int);
    assert(n != 0);
    let x = abs_int(n);
    assert(gcd(x, x) == x) by {
        vstd::arithmetic::div_mod::lemma_mod_self_0(x as int);
        assert(gcd(x, x) == gcd(x, 0));
    }
    vstd::arithmetic::div_mod::lemma_div_by_self(x as int);
    assert(canon(n, n) == (1int, 1int));
}

/// Negating twice gives the value back.
pub proof fn law_neg_involutive(a: Rational)
    requires
        wf(a),
        a.num != i128::MIN,
    ensures
        spec_neg(a) matches Some(b) && spec_neg(b) == Some(a),
{
    let b = Rational { num: (-a.num) as i128, den: a.den };
    assert(wf(b)) by {
        assert(abs_int(b.num as int) == abs_int(a.num as int));
    }
    lemma_canon_of_wf(b);
    assert(spec_neg(a) == Some(b));
    lemma_canon_of_wf(a);
}

} // verus!
