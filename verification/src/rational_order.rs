use std::cmp::Ordering;
use vstd::prelude::*;
use crate::rational::{in_i128, lemma_wf_unique, same_value, wf, Rational};

verus! {

impl Rational {
    /// Orders two rationals by cross multiplication, `self.num * other.den` against
    /// `other.num * self.den` (the order of the fractions when both denominators are
    /// positive).
    pub fn cmp(&self, other: &Rational) -> (o: Ordering)
        requires
            in_i128(self.num * other.den),
            in_i128(other.num * self.den),
        ensures
            o is Less <==> self.num * other.den < other.num * self.den,
            o is Equal <==> self.num * other.den == other.num * self.den,
            o is Greater <==> self.num * other.den > other.num * self.den,
    {
        let p = self.num * other.den;
        let q = other.num * self.den;
        if p < q {
            Ordering::Less
        } else if p == q {
            Ordering::Equal
        } else {
            Ordering::Greater
        }
    }

    /// `Some` of [`Rational::cmp`].
    pub fn partial_cmp(&self, other: &Rational) -> (o: Option<Ordering>)
        requires
            in_i128(self.num * other.den),
            in_i128(other.num * self.den),
        ensures
            o matches Some(x) && (x is Less <==> self.num * other.den < other.num * self.den) && (
            x is Equal <==> self.num * other.den == other.num * self.den) && (x is Greater
                <==> self.num * other.den > other.num * self.den),
    {
        Some(self.cmp(other))
    }
}

/// For rationals in lowest terms, comparing equal is being equal.
pub proof fn law_cmp_equal_is_equality(a: Rational, b: Rational)
    requires
        wf(a),
        wf(b),
    ensures
        (a.num * b.den == b.num * a.den) <==> a == b,
{
    if a.num * b.den == b.num * a.den {
        assert(same_value(a, b));
        lemma_wf_unique(a, b);
    }
}

} // verus!
