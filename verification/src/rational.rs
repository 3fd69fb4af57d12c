use vstd::prelude::*;
use vstd::arithmetic::div_mod::*;
use vstd::arithmetic::mul::*;
use crate::text::{dec_int, dec_nat, i128_to_string, push_str};
use crate::number_theory::{abs_int, gcd, lemma_common_divisor_divides_gcd, lemma_gcd_divides, lemma_gcd_mul, lemma_gcd_pos, lemma_gcd_zero_right, lemma_mutual_divides};

verus! {

/// An exact fraction `num / den` over 128-bit integers.
///
/// Values built by [`Rational::new`] and by the arithmetic operations are kept in
/// lowest terms with a positive denominator (see [`wf`]); the fields are public, so a
/// caller may also build other pairs directly.
#[derive(Clone, Copy, Debug, PartialEq, Eq, Structural)]
pub struct Rational {
    pub num: i128,
    pub den: i128,
}

/// `x` is representable as an `i128`.
pub open spec fn in_i128(x: int) -> bool {
    i128::MIN <= x <= i128::MAX
}

/// The reduced form of the pair `(n, d)`: both parts divided by their gcd and the
/// sign moved to the numerator. Zero becomes `(0, 1)`; a zero denominator gives
/// `(sign(n), 0)`.
pub open spec fn canon(n: int, d: int) -> (int, int) {
    if n == 0 {
        (0, 1)
    } else {
        let g = gcd(abs_int(n), abs_int(d));
        let qn = abs_int(n) / g;
        let qd = abs_int(d) / g;
        if (n < 0) != (d < 0) {
            (-qn, qd as int)
        } else {
            (qn as int, qd as int)
        }
    }
}

/// Reducing `(n, d)` stays within `i128` (the numerator is not `i128::MIN`, whose
/// magnitude has no `i128`, and the reduced denominator fits).
pub open spec fn normalizable(n: int, d: int) -> bool {
    n == 0 || (n != i128::MIN && canon(n, d).1 <= i128::MAX)
}

/// The rational `Rational::new(n, d)` builds from the raw numerator and denominator,
/// or `None` where building it is not possible: a part outside `i128`, a zero
/// denominator, or a reduction that leaves `i128`.
pub open spec fn make(n: int, d: int) -> Option<Rational> {
    if in_i128(n) && in_i128(d) && d != 0 && normalizable(n, d) {
        Some(Rational { num: canon(n, d).0 as i128, den: canon(n, d).1 as i128 })
    } else {
        None
    }
}

/// Lowest terms with a positive denominator.
pub open spec fn wf(r: Rational) -> bool {
    r.den > 0 && gcd(abs_int(r.num as int), r.den as nat) == 1
}

/// `a` and `b` denote the same fraction.
pub open spec fn same_value(a: Rational, b: Rational) -> bool {
    a.num * b.den == b.num * a.den
}

/// Sum: `(a.num*b.den + b.num*a.den) / (a.den*b.den)`, reduced.
pub open spec fn spec_add(a: Rational, b: Rational) -> Option<Rational> {
    let p = a.num * b.den;
    let q = b.num * a.den;
    if in_i128(p) && in_i128(q) {
        make(p + q, a.den * b.den)
    } else {
        None
    }
}

/// Difference: `(a.num*b.den - b.num*a.den) / (a.den*b.den)`, reduced.
pub open spec fn spec_sub(a: Rational, b: Rational) -> Option<Rational> {
    let p = a.num * b.den;
    let q = b.num * a.den;
    if in_i128(p) && in_i128(q) {
        make(p - q, a.den * b.den)
    } else {
        None
    }
}

/// Product: `(a.num*b.num) / (a.den*b.den)`, reduced.
pub open spec fn spec_mul(a: Rational, b: Rational) -> Option<Rational> {
    make(a.num * b.num, a.den * b.den)
}

/// Quotient: `(a.num*b.den) / (a.den*b.num)`, reduced.
pub open spec fn spec_div(a: Rational, b: Rational) -> Option<Rational> {
    make(a.num * b.den, a.den * b.num)
}

/// Negation: `(-a.num) / a.den`, reduced.
pub open spec fn spec_neg(a: Rational) -> Option<Rational> {
    make(-a.num, a.den as int)
}

/// Absolute value: `|a.num| / a.den`, reduced.
pub open spec fn spec_abs(a: Rational) -> Option<Rational> {
    make(abs_int(a.num as int) as int, a.den as int)
}

/// What `{}` writes for a rational: the numerator alone when the denominator is 1,
/// otherwise `num/den`.
pub open spec fn display_spec(r: Rational) -> Seq<char> {
    if r.den == 1 {
        dec_int(r.num as int)
    } else {
        dec_int(r.num as int) + seq!['/'] + dec_int(r.den as int)
    }
}

/// Writing the rational does not overflow (a negative numerator is negated when the
/// denominator is not 1).
pub open spec fn displayable(r: Rational) -> bool {
    r.den == 1 || r.num != i128::MIN
}

/// The sum of a sequence, added from the left starting at zero; `None` where an
/// addition leaves `i128`.
pub open spec fn spec_sum(s: Seq<Rational>) -> Option<Rational>
    decreases s.len(),
{
    if s.len() == 0 {
        Some(zero_spec())
    } else {
        match spec_sum(s.drop_last()) {
            Some(acc) => spec_add(acc, s.last()),
            None => None,
        }
    }
}

pub open spec fn zero_spec() -> Rational {
    Rational { num: 0, den: 1 }
}

pub open spec fn one_spec() -> Rational {
    Rational { num: 1, den: 1 }
}

// ---------------------------------------------------------------------------
// Facts about the reduced form
// ---------------------------------------------------------------------------

/// The reduced form of `(n, d)` with `d != 0` is in lowest terms, has a positive
/// denominator, denotes the same fraction, and its parts are no larger than those of
/// `(n, d)`.
pub proof fn lemma_canon(n: int, d: int)
    requires
        d != 0,
    ensures
        canon(n, d).1 > 0,
        gcd(abs_int(canon(n, d).0), canon(n, d).1 as nat) == 1,
        canon(n, d).0 * d == n * canon(n, d).1,
        abs_int(canon(n, d).0) <= abs_int(n),
        canon(n, d).1 <= abs_int(d),
        n == 0 <==> canon(n, d).0 == 0,
        n != 0 ==> (n < 0 <==> ((canon(n, d).0 < 0) != (d < 0))),
{
    if n == 0 {
        lemma_gcd_zero_right(1);
        assert(gcd(0, 1) == gcd(1, 0));
    } else {
        let an = abs_int(n);
        let ad = abs_int(d);
        let g = gcd(an, ad);
        lemma_gcd_pos(an, ad);
        lemma_gcd_divides(an, ad);
        let qn = an / g;
        let qd = ad / g;
        lemma_fundamental_div_mod(an as int, g as int);
        lemma_fundamental_div_mod(ad as int, g as int);
        assert(an == qn * g && ad == qd * g) by (nonlinear_arith)
            requires
                an == g * qn + 0,
                ad == g * qd + 0,
        ;
        lemma_gcd_mul(qn, qd, g);
        assert(gcd(qn, qd) == 1) by (nonlinear_arith)
            requires
                gcd(qn, qd) * g == g,
                g > 0,
        ;
        assert(qn > 0 && qd > 0 && qn <= an && qd <= ad) by (nonlinear_arith)
            requires
                an == qn * g,
                ad == qd * g,
                g > 0,
                an > 0,
                ad > 0,
        ;
        // cross multiplication, by the signs of n and d
        let c = canon(n, d);
        if n < 0 && d < 0 {
            assert(c.0 * d == n * c.1) by (nonlinear_arith)
                requires
                    c.0 == qn,
                    c.1 == qd,
                    -n == qn * g,
                    -d == qd * g,
            ;
        } else if n < 0 {
            assert(c.0 * d == n * c.1) by (nonlinear_arith)
                requires
                    c.0 == -qn,
                    c.1 == qd,
                    -n == qn * g,
                    d == qd * g,
            ;
        } else if d < 0 {
            assert(c.0 * d == n * c.1) by (nonlinear_arith)
                requires
                    c.0 == -qn,
                    c.1 == qd,
                    n == qn * g,
                    -d == qd * g,
            ;
        } else {
            assert(c.0 * d == n * c.1) by (nonlinear_arith)
                requires
                    c.0 == qn,
                    c.1 == qd,
                    n == qn * g,
                    d == qd * g,
            ;
        }
        assert(abs_int(c.0) == qn);
    }
}

/// What `make` builds, when it builds anything, is in lowest terms and denotes
/// `n / d`.
pub proof fn lemma_make(n: int, d: int)
    ensures
        make(n, d) matches Some(r) ==> {
            &&& wf(r)
            &&& r.num * d == n * r.den
            &&& r.num as int == canon(n, d).0
            &&& r.den as int == canon(n, d).1
            &&& r.num != i128::MIN
        },
{
    if in_i128(n) && in_i128(d) && d != 0 && normalizable(n, d) {
        lemma_canon(n, d);
    }
}

/// A rational that is already in lowest terms is its own reduced form.
pub proof fn lemma_canon_of_wf(r: Rational)
    requires
        wf(r),
    ensures
        canon(r.num as int, r.den as int) == (r.num as int, r.den as int),
        r.num != i128::MIN ==> normalizable(r.num as int, r.den as int),
        r.num != i128::MIN ==> make(r.num as int, r.den as int) == Some(r),
{
    if r.num != 0 {
        let an = abs_int(r.num as int);
        let ad = r.den as nat;
        assert(abs_int(r.den as int) == ad);
        assert(gcd(an, ad) == 1);
        assert(an / 1 == an && ad / 1 == ad);
        let c = canon(r.num as int, r.den as int);
        assert(c.1 == ad as int);
        if r.num < 0 {
            assert(c.0 == -(an as int));
        } else {
            assert(c.0 == an as int);
        }
    } else {
        let ad = r.den as nat;
        lemma_small_mod(0, ad);
        assert(gcd(0, ad) == gcd(ad, 0));
    }
}

/// Two rationals in lowest terms that denote the same fraction are equal.
pub proof fn lemma_wf_unique(a: Rational, b: Rational)
    requires
        wf(a),
        wf(b),
        same_value(a, b),
    ensures
        a == b,
{
    let d1 = a.den as nat;
    let d2 = b.den as nat;
    let n1 = abs_int(a.num as int);
    let n2 = abs_int(b.num as int);
    if a.num == 0 {
        assert(b.num == 0) by (nonlinear_arith)
            requires
                a.num * d2 == b.num * d1,
                a.num == 0,
                d1 > 0,
        ;
        assert(gcd(0, d1) == d1) by {
            lemma_small_mod(0, d1);
            assert(gcd(0, d1) == gcd(d1, 0));
        }
        assert(gcd(0, d2) == d2) by {
            lemma_small_mod(0, d2);
            assert(gcd(0, d2) == gcd(d2, 0));
        }
    } else {
        // |a.num| * d2 == |b.num| * d1
        assert(n1 * d2 == n2 * d1) by (nonlinear_arith)
            requires
                a.num * d2 == b.num * d1,
                d1 > 0,
                d2 > 0,
                n1 == (if a.num < 0 { -a.num } else { a.num as int }),
                n2 == (if b.num < 0 { -b.num } else { b.num as int }),
        ;
        // d1 divides n1 * d2 and d1 * d2, hence gcd(n1*d2, d1*d2) == d2
        lemma_gcd_mul(n1, d1, d2);
        assert(n1 * d2 == n2 * d1);
        lemma_mod_multiples_basic(n2 as int, d1 as int);
        lemma_mod_multiples_basic(d2 as int, d1 as int);
        assert((d1 * d2) == d2 * d1) by {
            lemma_mul_is_commutative(d1 as int, d2 as int);
        }
        lemma_common_divisor_divides_gcd(n1 * d2, d1 * d2, d1);
        assert(d2 % d1 == 0);
        // and symmetrically
        assert(n2 != 0) by (nonlinear_arith)
            requires
                n1 * d2 == n2 * d1,
                n1 > 0,
                d2 > 0,
        ;
        lemma_gcd_mul(n2, d2, d1);
        lemma_mod_multiples_basic(n1 as int, d2 as int);
        lemma_mod_multiples_basic(d1 as int, d2 as int);
        assert((d2 * d1) == d1 * d2) by {
            lemma_mul_is_commutative(d1 as int, d2 as int);
        }
        assert(n2 * d1 == n1 * d2);
        lemma_common_divisor_divides_gcd(n2 * d1, d2 * d1, d2);
        assert(d1 % d2 == 0);
        lemma_mutual_divides(d1, d2);
        assert(a.num == b.num) by (nonlinear_arith)
            requires
                a.num * d2 == b.num * d1,
                d1 == d2,
                d1 > 0,
        ;
    }
}

/// A sum that does not overflow has no overflowing prefix sum.
pub proof fn lemma_sum_prefix_some(s: Seq<Rational>, k: int)
    requires
        0 <= k <= s.len(),
        spec_sum(s) is Some,
    ensures
        spec_sum(s.subrange(0, k)) is Some,
    decreases s.len() - k,
{
    if k < s.len() {
        lemma_sum_prefix_some(s, k + 1);
        assert(s.subrange(0, k + 1).drop_last() =~= s.subrange(0, k));
    } else {
        assert(s.subrange(0, k) =~= s);
    }
}

// ---------------------------------------------------------------------------
// Executable helpers
// ---------------------------------------------------------------------------

/// Magnitude of an `i128` as a `u128` (defined for every input, `i128::MIN` included).
fn magnitude(x: i128) -> (r: u128)
    ensures
        r as nat == abs_int(x as int),
{
    if x >= 0 {
        x as u128
    } else {
        let y: i128 = -(x + 1);
        (y as u128) + 1
    }
}

/// Euclid's algorithm on magnitudes.
fn gcd_u128(a: u128, b: u128) -> (g: u128)
    ensures
        g as nat == gcd(a as nat, b as nat),
    decreases b,
{
    if b == 0 {
        a
    } else {
        gcd_u128(b, a % b)
    }
}

/// Greatest common divisor of the magnitudes of `a` and `b`.
fn gcd_i128(a: i128, b: i128) -> (g: i128)
    requires
        gcd(abs_int(a as int), abs_int(b as int)) <= i128::MAX,
    ensures
        g as int == gcd(abs_int(a as int), abs_int(b as int)) as int,
{
    let g = gcd_u128(magnitude(a), magnitude(b));
    g as i128
}

impl Rational {
    /// The reduced rational `num / den`.
    pub fn new(num: i128, den: i128) -> (r: Rational)
        requires
            den != 0,
            normalizable(num as int, den as int),
        ensures
            make(num as int, den as int) == Some(r),
            wf(r),
            r.num * den == num * r.den,
    {
        let mut r = Rational { num, den };
        r.normalize();
        proof {
            lemma_make(num as int, den as int);
        }
        r
    }

    /// The reduced rational `num / den`, or `None` exactly where [`Rational::new`]
    /// cannot build it.
    pub fn try_new(num: i128, den: i128) -> (r: Option<Rational>)
        ensures
            r == make(num as int, den as int),
            r matches Some(x) ==> wf(x) && x.num * den == num * x.den,
    {
        if den == 0 {
            return None;
        }
        if num != 0 {
            if num == i128::MIN {
                return None;
            }
            let an = magnitude(num);
            let ad = magnitude(den);
            let g = gcd_u128(an, ad);
            proof {
                lemma_gcd_pos(an as nat, ad as nat);
            }
            let qd = ad / g;
            if qd > (i128::MAX as u128) {
                return None;
            }
        }
        Some(Rational::new(num, den))
    }

    /// Brings the pair into lowest terms with a positive denominator (a zero numerator
    /// gives `0/1`).
    pub fn normalize(&mut self)
        requires
            normalizable(old(self).num as int, old(self).den as int),
        ensures
            final(self).num as int == canon(old(self).num as int, old(self).den as int).0,
            final(self).den as int == canon(old(self).num as int, old(self).den as int).1,
    {
        if self.num == 0 {
            self.den = 1;
            return ;
        }
        let an = magnitude(self.num);
        let ad = magnitude(self.den);
        proof {
            lemma_gcd_pos(an as nat, ad as nat);
            lemma_gcd_divides(an as nat, ad as nat);
            lemma_mod_is_zero(an as nat, gcd(an as nat, ad as nat));
        }
        let ghost gg = gcd(an as nat, ad as nat);
        proof {
            assert(abs_int((an as i128) as int) == an as nat);
            assert(gg <= an);
            assert(canon(self.num as int, self.den as int).1 == (ad as nat) / gg);
        }
        let g = gcd_i128(an as i128, self.den);
        assert(gg > 0);
        let gu = g as u128;
        assert(gu as nat == gg);
        let qn = an / gu;
        let qd = ad / gu;
        proof {
            assert(qn <= an) by {
                lemma_div_is_ordered_by_denominator(an as int, 1, gu as int);
            }
        }
        let neg = (self.num < 0) != (self.den < 0);
        if neg {
            self.num = -(qn as i128);
        } else {
            self.num = qn as i128;
        }
        self.den = qd as i128;
    }

    pub fn from_int(n: i128) -> (r: Rational)
        ensures
            r.num == n,
            r.den == 1,
            wf(r),
    {
        proof {
            assert(gcd(abs_int(n as int), 1) == 1) by {
                let a = abs_int(n as int);
                assert(a % 1 == 0) by {
                    lemma_mod_bound(a as int, 1);
                }
                assert(gcd(1, 0) == 1);
            }
        }
        Rational { num: n, den: 1 }
    }

    pub fn zero() -> (r: Rational)
        ensures
            r == zero_spec(),
            wf(r),
    {
        Rational::from_int(0)
    }

    pub fn one() -> (r: Rational)
        ensures
            r == one_spec(),
            wf(r),
    {
        Rational::from_int(1)
    }

    pub fn is_zero(&self) -> (b: bool)
        ensures
            b == (self.num == 0),
    {
        self.num == 0
    }

    pub fn is_one(&self) -> (b: bool)
        ensures
            b == (self.num == 1 && self.den == 1),
    {
        self.num == 1 && self.den == 1
    }

    pub fn is_negative(&self) -> (b: bool)
        ensures
            b == (self.num < 0),
    {
        self.num < 0
    }

    pub fn is_integer(&self) -> (b: bool)
        ensures
            b == (self.den == 1),
    {
        self.den == 1
    }

    /// `|self|`, reduced.
    pub fn abs(&self) -> (r: Rational)
        requires
            spec_abs(*self) is Some,
        ensures
            spec_abs(*self) == Some(r),
            wf(r),
            r.num * self.den == abs_int(self.num as int) * r.den,
    {
        let a: i128 = if self.num < 0 {
            -self.num
        } else {
            self.num
        };
        Rational::new(a, self.den)
    }

    pub fn checked_abs(&self) -> (r: Option<Rational>)
        ensures
            r == spec_abs(*self),
            r matches Some(x) ==> wf(x) && x.num * self.den == abs_int(self.num as int) * x.den,
    {
        if self.num == i128::MIN {
            return None;
        }
        let a: i128 = if self.num < 0 {
            -self.num
        } else {
            self.num
        };
        Rational::try_new(a, self.den)
    }

    pub fn checked_add(self, other: Rational) -> (r: Option<Rational>)
        ensures
            r == spec_add(self, other),
            r matches Some(x) ==> wf(x) && x.num * (self.den * other.den) == (self.num * other.den + other.num * self.den) * x.den,
    {
        let p = match self.num.checked_mul(other.den) {
            Some(v) => v,
            None => return None,
        };
        let q = match other.num.checked_mul(self.den) {
            Some(v) => v,
            None => return None,
        };
        let n = match p.checked_add(q) {
            Some(v) => v,
            None => return None,
        };
        let d = match self.den.checked_mul(other.den) {
            Some(v) => v,
            None => return None,
        };
        Rational::try_new(n, d)
    }

    pub fn checked_sub(self, other: Rational) -> (r: Option<Rational>)
        ensures
            r == spec_sub(self, other),
            r matches Some(x) ==> wf(x) && x.num * (self.den * other.den) == (self.num * other.den - other.num * self.den) * x.den,
    {
        let p = match self.num.checked_mul(other.den) {
            Some(v) => v,
            None => return None,
        };
        let q = match other.num.checked_mul(self.den) {
            Some(v) => v,
            None => return None,
        };
        let n = match p.checked_sub(q) {
            Some(v) => v,
            None => return None,
        };
        let d = match self.den.checked_mul(other.den) {
            Some(v) => v,
            None => return None,
        };
        Rational::try_new(n, d)
    }

    pub fn checked_mul(self, other: Rational) -> (r: Option<Rational>)
        ensures
            r == spec_mul(self, other),
            r matches Some(x) ==> wf(x) && x.num * (self.den * other.den) == (self.num * other.num) * x.den,
    {
        let n = match self.num.checked_mul(other.num) {
            Some(v) => v,
            None => return None,
        };
        let d = match self.den.checked_mul(other.den) {
            Some(v) => v,
            None => return None,
        };
        Rational::try_new(n, d)
    }

    pub fn checked_div(self, other: Rational) -> (r: Option<Rational>)
        ensures
            r == spec_div(self, other),
            r matches Some(x) ==> wf(x) && x.num * (self.den * other.num) == (self.num * other.den) * x.den,
    {
        let n = match self.num.checked_mul(other.den) {
            Some(v) => v,
            None => return None,
        };
        let d = match self.den.checked_mul(other.num) {
            Some(v) => v,
            None => return None,
        };
        Rational::try_new(n, d)
    }

    pub fn checked_neg(self) -> (r: Option<Rational>)
        ensures
            r == spec_neg(self),
            r matches Some(x) ==> wf(x) && x.num * self.den == -self.num * x.den,
    {
        if self.num == i128::MIN {
            return None;
        }
        Rational::try_new(-self.num, self.den)
    }

    /// The text `{}` writes for this rational.
    pub fn to_display_string(&self) -> (s: String)
        requires
            displayable(*self),
        ensures
            s@ == display_spec(*self),
    {
        if self.den == 1 {
            i128_to_string(self.num)
        } else {
            let mut s = i128_to_string(self.num);
            s.push('/');
            let d = i128_to_string(self.den);
            push_str(&mut s, d.as_str());
            s
        }
    }

    /// Adds up the values from the left, starting at zero.
    pub fn sum(values: &Vec<Rational>) -> (r: Rational)
        requires
            spec_sum(values@) is Some,
        ensures
            spec_sum(values@) == Some(r),
    {
        let mut acc = Rational::zero();
        let mut i: usize = 0;
        while i < values.len()
            invariant
                i <= values.len(),
                spec_sum(values@.subrange(0, i as int)) == Some(acc),
                spec_sum(values@) is Some,
            decreases values.len() - i,
        {
            proof {
                assert(values@.subrange(0, i + 1).drop_last() =~= values@.subrange(0, i as int));
                lemma_sum_prefix_some(values@, i + 1);
            }
            acc = acc.add(values[i]);
            i = i + 1;
        }
        assert(values@.subrange(0, values.len() as int) =~= values@);
        acc
    }

    /// `self + other`, reduced.
    pub fn add(self, other: Rational) -> (r: Rational)
        requires
            spec_add(self, other) is Some,
        ensures
            spec_add(self, other) == Some(r),
            wf(r),
            r.num * (self.den * other.den) == (self.num * other.den + other.num * self.den) * r.den,
    {
        self.checked_add(other).unwrap()
    }

    /// `self - other`, reduced.
    pub fn sub(self, other: Rational) -> (r: Rational)
        requires
            spec_sub(self, other) is Some,
        ensures
            spec_sub(self, other) == Some(r),
            wf(r),
            r.num * (self.den * other.den) == (self.num * other.den - other.num * self.den) * r.den,
    {
        self.checked_sub(other).unwrap()
    }

    /// `self * other`, reduced.
    pub fn mul(self, other: Rational) -> (r: Rational)
        requires
            spec_mul(self, other) is Some,
        ensures
            spec_mul(self, other) == Some(r),
            wf(r),
            r.num * (self.den * other.den) == (self.num * other.num) * r.den,
    {
        self.checked_mul(other).unwrap()
    }

    /// `self / other`, reduced.
    pub fn div(self, other: Rational) -> (r: Rational)
        requires
            spec_div(self, other) is Some,
        ensures
            spec_div(self, other) == Some(r),
            wf(r),
            r.num * (self.den * other.num) == (self.num * other.den) * r.den,
    {
        self.checked_div(other).unwrap()
    }

    /// `-self`, reduced.
    pub fn neg(self) -> (r: Rational)
        requires
            spec_neg(self) is Some,
        ensures
            spec_neg(self) == Some(r),
            wf(r),
            r.num * self.den == -self.num * r.den,
    {
        self.checked_neg().unwrap()
    }
}

} // verus!
