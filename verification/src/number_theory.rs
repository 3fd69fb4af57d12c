use vstd::prelude::*;
use vstd::arithmetic::div_mod::*;
use vstd::arithmetic::mul::*;

verus! {

/// Greatest common divisor of two natural numbers (Euclid's recursion).
pub open spec fn gcd(a: nat, b: nat) -> nat
    decreases b,
{
    if b == 0 {
        a
    } else {
        gcd(b, a % b)
    }
}

/// Magnitude of an integer.
pub open spec fn abs_int(x: int) -> nat {
    if x < 0 {
        (-x) as nat
    } else {
        x as nat
    }
}

/// `d` divides `x`.
pub open spec fn divides(d: nat, x: nat) -> bool {
    d > 0 && x % d == 0
}

pub proof fn lemma_gcd_pos(a: nat, b: nat)
    requires
        a > 0 || b > 0,
    ensures
        gcd(a, b) > 0,
    decreases b,
{
    if b != 0 {
        lemma_gcd_pos(b, a % b);
    }
}

pub proof fn lemma_gcd_zero_right(a: nat)
    ensures
        gcd(a, 0) == a,
{
}

/// The gcd divides both of its arguments.
pub proof fn lemma_gcd_divides(a: nat, b: nat)
    requires
        a > 0 || b > 0,
    ensures
        divides(gcd(a, b), a),
        divides(gcd(a, b), b),
    decreases b,
{
    lemma_gcd_pos(a, b);
    let g = gcd(a, b);
    if b == 0 {
        lemma_mod_self_0(a as int);
        lemma_small_mod(0, a);
    } else {
        let r = a % b;
        lemma_gcd_divides(b, r);
        lemma_fundamental_div_mod(a as int, b as int);
        let q = a / b;
        // a == b * q + r, g | b, g | r
        assert(b == (b / g) * g) by {
            lemma_fundamental_div_mod(b as int, g as int);
        }
        assert(r == (r / g) * g) by {
            lemma_fundamental_div_mod(r as int, g as int);
        }
        let k = (b / g) * q + r / g;
        assert(a == k * g) by (nonlinear_arith)
            requires
                a == b * q + r,
                b == (b / g) * g,
                r == (r / g) * g,
                k == (b / g) * q + r / g,
        ;
        assert(k >= 0) by {
            lemma_div_pos_is_pos(b as int, g as int);
            lemma_div_pos_is_pos(r as int, g as int);
            lemma_div_pos_is_pos(a as int, b as int);
            lemma_mul_nonnegative((b / g) as int, q as int);
        }
        lemma_mod_multiples_basic(k as int, g as int);
    }
}

/// Any common divisor of `a` and `b` divides their gcd.
pub proof fn lemma_common_divisor_divides_gcd(a: nat, b: nat, d: nat)
    requires
        divides(d, a),
        divides(d, b),
    ensures
        gcd(a, b) % d == 0,
    decreases b,
{
    if b != 0 {
        let q = a / b;
        let r = a % b;
        lemma_fundamental_div_mod(a as int, b as int);
        lemma_fundamental_div_mod(a as int, d as int);
        lemma_fundamental_div_mod(b as int, d as int);
        lemma_div_pos_is_pos(a as int, b as int);
        let ka = a / d;
        let kb = b / d;
        assert(r == (ka - kb * q) * d) by (nonlinear_arith)
            requires
                a == b * q + r,
                a == d * ka,
                b == d * kb,
        ;
        lemma_mod_multiples_basic(ka - kb * q, d as int);
        lemma_common_divisor_divides_gcd(b, r, d);
    }
}

/// Remainders scale: (a*c) % (b*c) == (a % b) * c.
pub proof fn lemma_mod_scale(a: nat, b: nat, c: nat)
    requires
        b > 0,
        c > 0,
    ensures
        (a * c) % (b * c) == (a % b) * c,
        b * c > 0,
{
    lemma_fundamental_div_mod(a as int, b as int);
    lemma_mod_pos_bound(a as int, b as int);
    let q = a / b;
    let r = a % b;
    assert(a * c == q * (b * c) + r * c && 0 <= r * c < b * c && b * c > 0) by (nonlinear_arith)
        requires
            a == b * q + r,
            0 <= r < b,
            c > 0,
    ;
    lemma_fundamental_div_mod_converse((a * c) as int, (b * c) as int, q as int, (r * c) as int);
}

/// The gcd is multiplicative in a common factor.
pub proof fn lemma_gcd_mul(a: nat, b: nat, c: nat)
    requires
        c > 0,
    ensures
        gcd(a * c, b * c) == gcd(a, b) * c,
    decreases b,
{
    if b == 0 {
        assert(b * c == 0) by (nonlinear_arith)
            requires
                b == 0,
        ;
    } else {
        assert(b * c > 0) by (nonlinear_arith)
            requires
                b > 0,
                c > 0,
        ;
        lemma_mod_scale(a, b, c);
        lemma_gcd_mul(b, a % b, c);
    }
}

/// If `x` and `y` divide each other they are equal.
pub proof fn lemma_mutual_divides(x: nat, y: nat)
    requires
        x > 0,
        y > 0,
        y % x == 0,
        x % y == 0,
    ensures
        x == y,
{
    lemma_mod_is_zero(y, x);
    lemma_mod_is_zero(x, y);
}

} // verus!
