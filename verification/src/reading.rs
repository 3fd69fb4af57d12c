use vstd::prelude::*;
use crate::frac::{fr, Frac};
use crate::display::cell_text;
use crate::gauss::{multiplier_text, swap_label_spec};
use crate::solver::CellVal;
use crate::number_theory::abs_int;
use crate::rational::{display_spec, lemma_make, lemma_wf_unique, spec_abs, wf, Rational};
use crate::solution::{coeff_text, constant_part, expr_text, format_expr, is_one_spec, term_parts, Expr};
use crate::text::{dec_int, dec_nat, digit_char, digit_value, digits_value, is_digit_spec};

verus! {

// ---------------------------------------------------------------------------
// Reading numbers back from their text
// ---------------------------------------------------------------------------

/// A non-empty run of decimal digits.
pub open spec fn all_digits(s: Seq<char>) -> bool {
    s.len() > 0 && forall|i: int| 0 <= i < s.len() ==> is_digit_spec(#[trigger] s[i])
}

/// The integer a text writes: decimal digits, with a '-' in front for a negative one.
pub open spec fn read_int(s: Seq<char>) -> Option<int> {
    if s.len() > 0 && s[0] == '-' && all_digits(s.drop_first()) {
        Some(-(digits_value(s.drop_first()) as int))
    } else if all_digits(s) {
        Some(digits_value(s) as int)
    } else {
        None
    }
}

/// The first place of `c` in `s`, or the length of `s` where it does not occur.
pub open spec fn index_of(s: Seq<char>, c: char) -> int
    decreases s.len(),
{
    if s.len() == 0 {
        0
    } else if s[0] == c {
        0
    } else {
        1 + index_of(s.drop_first(), c)
    }
}

/// The fraction a text writes: an integer `n`, read as `n/1`, or `n/d` with two
/// integers.
pub open spec fn read_number(s: Seq<char>) -> Option<Frac> {
    let k = index_of(s, '/');
    if k < s.len() {
        match (read_int(s.subrange(0, k)), read_int(s.subrange(k + 1, s.len() as int))) {
            (Some(n), Some(d)) => Some((n, d)),
            _ => None,
        }
    } else {
        match read_int(s) {
            Some(n) => Some((n, 1)),
            None => None,
        }
    }
}

proof fn lemma_digit_char(d: nat)
    requires
        d < 10,
    ensures
        is_digit_spec(digit_char(d)),
        digit_value(digit_char(d)) == d,
{
    if d == 0 {
        assert(digit_char(d) == '0');
    } else if d == 1 {
        assert(digit_char(d) == '1');
    } else if d == 2 {
        assert(digit_char(d) == '2');
    } else if d == 3 {
        assert(digit_char(d) == '3');
    } else if d == 4 {
        assert(digit_char(d) == '4');
    } else if d == 5 {
        assert(digit_char(d) == '5');
    } else if d == 6 {
        assert(digit_char(d) == '6');
    } else if d == 7 {
        assert(digit_char(d) == '7');
    } else if d == 8 {
        assert(digit_char(d) == '8');
    } else {
        assert(digit_char(d) == '9');
    }
}

/// The decimal numeral of `n` is a run of digits whose value is `n`.
pub proof fn lemma_dec_nat(n: nat)
    ensures
        all_digits(dec_nat(n)),
        digits_value(dec_nat(n)) == n,
    decreases n,
{
    if n < 10 {
        lemma_digit_char(n);
        assert(dec_nat(n) =~= seq![digit_char(n)]);
        assert(dec_nat(n).drop_last() =~= Seq::<char>::empty());
        assert(digits_value(Seq::<char>::empty()) == 0);
        assert(dec_nat(n).last() == digit_char(n));
    } else {
        lemma_dec_nat(n / 10);
        lemma_digit_char(n % 10);
        let s = dec_nat(n);
        assert(s.drop_last() =~= dec_nat(n / 10));
        assert(s.last() == digit_char(n % 10));
        assert(n == (n / 10) * 10 + n % 10);
        assert forall|i: int| 0 <= i < s.len() implies is_digit_spec(#[trigger] s[i]) by {
            if i < s.len() - 1 {
                assert(s[i] == dec_nat(n / 10)[i]);
            }
        }
    }
}

proof fn lemma_index_of_absent(s: Seq<char>, c: char)
    requires
        forall|i: int| 0 <= i < s.len() ==> s[i] != c,
    ensures
        index_of(s, c) == s.len(),
    decreases s.len(),
{
    if s.len() > 0 {
        lemma_index_of_absent(s.drop_first(), c);
    }
}

proof fn lemma_index_of_at(s: Seq<char>, c: char, k: int)
    requires
        0 <= k < s.len(),
        s[k] == c,
        forall|i: int| 0 <= i < k ==> s[i] != c,
    ensures
        index_of(s, c) == k,
    decreases s.len(),
{
    if k > 0 {
        lemma_index_of_at(s.drop_first(), c, k - 1);
    }
}

/// The decimal numeral of an integer reads back as that integer, and holds no '/'.
pub proof fn lemma_read_dec_int(x: int)
    ensures
        read_int(dec_int(x)) == Some(x),
        forall|i: int| 0 <= i < dec_int(x).len() ==> dec_int(x)[i] != '/',
{
    let a = abs_int(x);
    lemma_dec_nat(a);
    let t = dec_nat(a);
    assert forall|i: int| 0 <= i < t.len() implies t[i] != '/' by {
        assert(is_digit_spec(t[i]));
    }
    if x < 0 {
        let s = dec_int(x);
        assert(s.drop_first() =~= t);
        assert(s[0] == '-');
        assert forall|i: int| 0 <= i < s.len() implies s[i] != '/' by {
            if i > 0 {
                assert(s[i] == t[i - 1]);
            }
        }
    } else {
        assert(a == x);
        assert(is_digit_spec(t[0]));
        assert(t[0] != '-');
    }
}

/// An integer written as a numeral reads back as the fraction `x/1`.
pub proof fn lemma_read_int_text(x: int)
    ensures
        read_number(dec_int(x)) == Some((x, 1int)),
{
    lemma_read_dec_int(x);
    lemma_index_of_absent(dec_int(x), '/');
}

/// A rational written as its numerator, or as `numerator/denominator`, reads back
/// as its fraction.
pub proof fn lemma_read_display(r: Rational)
    ensures
        read_number(display_spec(r)) == Some((r.num as int, r.den as int)),
{
    if r.den == 1 {
        lemma_read_int_text(r.num as int);
    } else {
        let a = dec_int(r.num as int);
        let b = dec_int(r.den as int);
        let s = display_spec(r);
        lemma_read_dec_int(r.num as int);
        lemma_read_dec_int(r.den as int);
        assert(s == a + seq!['/'] + b);
        assert(s[a.len() as int] == '/');
        assert forall|i: int| 0 <= i < a.len() implies s[i] != '/' by {
            assert(s[i] == a[i]);
        }
        lemma_index_of_at(s, '/', a.len() as int);
        assert(s.subrange(0, a.len() as int) =~= a);
        assert(s.subrange(a.len() as int + 1, s.len() as int) =~= b);
    }
}

/// A character of a written number: a digit, a minus sign or a fraction bar.
pub open spec fn number_char(c: char) -> bool {
    is_digit_spec(c) || c == '-' || c == '/'
}

proof fn lemma_dec_int_chars(x: int)
    ensures
        forall|i: int| 0 <= i < dec_int(x).len() ==> number_char(#[trigger] dec_int(x)[i]),
{
    let a = abs_int(x);
    lemma_dec_nat(a);
    let t = dec_nat(a);
    if x < 0 {
        let s = dec_int(x);
        assert forall|i: int| 0 <= i < s.len() implies number_char(#[trigger] s[i]) by {
            if i > 0 {
                assert(s[i] == t[i - 1]);
            }
        }
    } else {
        assert forall|i: int| 0 <= i < t.len() implies number_char(#[trigger] t[i]) by {
            assert(is_digit_spec(t[i]));
        }
    }
}

/// The text of a multiplier (an integer, or a fraction `n/d`) reads back as the
/// fraction of the rational it is written from, and is made of digits, '-' and '/'.
pub proof fn lemma_read_multiplier(v: Rational)
    ensures
        multiplier_text(v) matches Some(t) ==> read_number(t) == Some(fr(v)) && forall|i: int|
            0 <= i < t.len() ==> number_char(#[trigger] t[i]),
{
    lemma_dec_int_chars(v.num as int);
    lemma_dec_int_chars(v.den as int);
    if v.den == 1 {
        lemma_read_int_text(v.num as int);
    } else {
        lemma_read_display(v);
        let a = dec_int(v.num as int);
        let b = dec_int(v.den as int);
        let s = display_spec(v);
        assert(s == a + seq!['/'] + b);
        assert forall|i: int| 0 <= i < s.len() implies number_char(#[trigger] s[i]) by {
            if i < a.len() {
                assert(s[i] == a[i]);
            } else if i > a.len() {
                assert(s[i] == b[i - a.len() - 1]);
            }
        }
    }
}

/// The fraction a signed piece of an expression writes: `- n`, `+ n`, `-n` or `n`,
/// with `n` an integer or a fraction `a/b`.
pub open spec fn read_signed(p: Seq<char>) -> Option<Frac> {
    let neg = |x: Option<Frac>|
        match x {
            Some(f) => Some((-f.0, f.1)),
            None => None,
        };
    if p.len() >= 2 && p[0] == '-' && p[1] == ' ' {
        neg(read_number(p.subrange(2, p.len() as int)))
    } else if p.len() >= 2 && p[0] == '+' && p[1] == ' ' {
        read_number(p.subrange(2, p.len() as int))
    } else if p.len() >= 1 && p[0] == '-' {
        neg(read_number(p.subrange(1, p.len() as int)))
    } else {
        read_number(p)
    }
}

/// The magnitude of a rational in lowest terms is `|num| / den`.
proof fn lemma_abs_wf(c: Rational)
    requires
        wf(c),
    ensures
        spec_abs(c) matches Some(a) ==> a.num == abs_int(c.num as int) && a.den == c.den,
{
    let n = abs_int(c.num as int);
    lemma_make(n as int, c.den as int);
    if spec_abs(c) is Some {
        let a = spec_abs(c)->Some_0;
        let q = Rational { num: n as i128, den: c.den };
        assert(n <= i128::MAX);
        assert(abs_int(q.num as int) == n);
        assert(wf(q));
        assert(a.num * q.den == q.num * a.den);
        lemma_wf_unique(a, q);
    }
}

/// The constant of an expression is written as its own part, after the parts before
/// it, and that part reads back as the constant: with "- " (or a bare '-' when it
/// stands first) for a negative one, "+ " (or nothing when it stands first) for a
/// positive one. A zero constant adds no part.
pub proof fn law_constant_part_reads_back(constant: Rational, parts: Seq<Seq<char>>)
    requires
        wf(constant),
    ensures
        constant_part(constant, parts) matches Some(p2) ==> {
            &&& p2.subrange(0, parts.len() as int) == parts
            &&& constant.num == 0 ==> p2 == parts
            &&& constant.num != 0 ==> p2.len() == parts.len() + 1 && read_signed(p2.last()) == Some(fr(constant))
            &&& constant.num != 0 && parts.len() > 0 ==> p2.last()[1] == ' '
        },
{
    if constant.num != 0 && constant_part(constant, parts) is Some {
        reveal_strlit("- ");
        reveal_strlit("+ ");
        reveal_strlit("-");
        let p2 = constant_part(constant, parts)->Some_0;
        lemma_abs_wf(constant);
        let a = spec_abs(constant)->Some_0;
        let rs = if a.den == 1 { dec_int(a.num as int) } else { display_spec(a) };
        if a.den == 1 {
            lemma_read_int_text(a.num as int);
        } else {
            lemma_read_display(a);
        }
        assert(read_number(rs) == Some((a.num as int, a.den as int)));
        // the magnitude's text starts with a digit
        lemma_dec_nat(abs_int(a.num as int));
        assert(a.num >= 0);
        assert(dec_int(a.num as int) == dec_nat(a.num as nat));
        assert(rs[0] == dec_nat(a.num as nat)[0]);
        assert(is_digit_spec(rs[0]));
        let piece = p2.last();
        if constant.num < 0 {
            if parts.len() == 0 {
                assert(piece =~= "-"@ + rs);
                assert(piece.subrange(1, piece.len() as int) =~= rs);
            } else {
                assert(piece =~= "- "@ + rs);
                assert(piece.subrange(2, piece.len() as int) =~= rs);
            }
        } else {
            if parts.len() > 0 {
                assert(piece =~= "+ "@ + rs);
                assert(piece.subrange(2, piece.len() as int) =~= rs);
            }
        }
        assert(p2.subrange(0, parts.len() as int) =~= parts);
    } else if constant_part(constant, parts) is Some {
        assert(parts.subrange(0, parts.len() as int) =~= parts);
    }
}

/// The magnitude a coefficient's text writes: nothing for 1, else a number.
pub open spec fn read_magnitude(m: Seq<char>) -> Option<Frac> {
    if m.len() == 0 {
        Some((1, 1))
    } else {
        read_number(m)
    }
}

/// The coefficient a piece `p` of a linear expression gives the name `name`: the
/// piece ends with the name; before it stand "+ " or '-' or nothing, then the
/// magnitude (nothing for 1).
pub open spec fn read_term_piece(p: Seq<char>, name: Seq<char>) -> Option<Frac> {
    if p.len() < name.len() || p.subrange(p.len() - name.len(), p.len() as int) != name {
        None
    } else {
        let body = p.subrange(0, p.len() - name.len());
        if body.len() >= 2 && body[0] == '+' && body[1] == ' ' {
            read_magnitude(body.subrange(2, body.len() as int))
        } else if body.len() >= 1 && body[0] == '-' {
            match read_magnitude(body.subrange(1, body.len() as int)) {
                Some(f) => Some((-f.0, f.1)),
                None => None,
            }
        } else {
            read_magnitude(body)
        }
    }
}

/// The places `fi..nf` with a non-zero coefficient, in order.
pub open spec fn nonzero_places(coeffs: Seq<Rational>, fi: nat, nf: nat) -> Seq<nat>
    decreases nf - fi,
{
    if fi >= nf {
        Seq::empty()
    } else if coeffs[fi as int].num == 0 {
        nonzero_places(coeffs, fi + 1, nf)
    } else {
        seq![fi] + nonzero_places(coeffs, fi + 1, nf)
    }
}

/// The magnitude text of a coefficient reads back as the magnitude, and starts with
/// a digit where it is not empty.
proof fn lemma_coeff_text(a: Rational)
    requires
        a.num > 0,
        a.den > 0,
    ensures
        read_magnitude(coeff_text(a)) == Some((a.num as int, a.den as int)),
        coeff_text(a).len() > 0 ==> is_digit_spec(coeff_text(a)[0]),
{
    lemma_dec_nat(a.num as nat);
    assert(dec_int(a.num as int) == dec_nat(a.num as nat));
    if is_one_spec(a) {
    } else if a.den == 1 {
        lemma_read_int_text(a.num as int);
    } else {
        lemma_read_display(a);
        assert(display_spec(a)[0] == dec_int(a.num as int)[0]);
    }
}

/// The piece written for a non-zero coefficient reads back as it.
proof fn lemma_piece_reads(c: Rational, name: Seq<char>, first: bool)
    requires
        wf(c),
        c.num != 0,
        spec_abs(c) is Some,
    ensures
        ({
            let cs = coeff_text(spec_abs(c)->Some_0) + name;
            let piece = if c.num < 0 {
                "-"@ + cs
            } else if first {
                cs
            } else {
                "+ "@ + cs
            };
            read_term_piece(piece, name) == Some(fr(c))
        }),
{
    reveal_strlit("-");
    reveal_strlit("+ ");
    lemma_abs_wf(c);
    let a = spec_abs(c)->Some_0;
    let m = coeff_text(a);
    let cs = m + name;
    let piece = if c.num < 0 {
        "-"@ + cs
    } else if first {
        cs
    } else {
        "+ "@ + cs
    };
    lemma_coeff_text(a);
    let body = piece.subrange(0, piece.len() - name.len());
    assert(piece.subrange(piece.len() - name.len(), piece.len() as int) =~= name);
    if c.num < 0 {
        assert(body =~= "-"@ + m);
        assert(body.subrange(1, body.len() as int) =~= m);
    } else if first {
        assert(body =~= m);
        if m.len() > 0 {
            assert(is_digit_spec(m[0]));
        }
    } else {
        assert(body =~= "+ "@ + m);
        assert(body.subrange(2, body.len() as int) =~= m);
    }
}

/// Each piece of a linear expression reads back as its coefficient: the pieces for
/// the coefficients `fi..nf` are appended to `parts`, one for each non-zero
/// coefficient, in order, and the piece of coefficient `i` reads back, with the name
/// `pnames[i]`, as that coefficient (its sign included).
#[verifier::spinoff_prover]
pub proof fn law_term_parts_read_back(coeffs: Seq<Rational>, pnames: Seq<Seq<char>>, fi: nat, nf: nat, parts: Seq<Seq<char>>)
    requires
        fi <= nf <= coeffs.len(),
        nf <= pnames.len(),
        forall|i: int| fi <= i < nf ==> wf(#[trigger] coeffs[i]),
    ensures
        term_parts(coeffs, pnames, fi, nf, parts) matches Some(ps) ==> {
            let nz = nonzero_places(coeffs, fi, nf);
            &&& ps.len() == parts.len() + nz.len()
            &&& ps.subrange(0, parts.len() as int) == parts
            &&& forall|j: int| 0 <= j < nz.len() ==> fi <= #[trigger] nz[j] < nf
            &&& forall|j: int|
                0 <= j < nz.len() ==> read_term_piece(#[trigger] ps[parts.len() + j], pnames[nz[j] as int]) == Some(
                    fr(coeffs[nz[j] as int]),
                )
        },
    decreases nf - fi,
{
    if fi >= nf {
        assert(parts.subrange(0, parts.len() as int) =~= parts);
    } else {
        let c = coeffs[fi as int];
        if c.num == 0 {
            law_term_parts_read_back(coeffs, pnames, fi + 1, nf, parts);
        } else if term_parts(coeffs, pnames, fi, nf, parts) is Some {
            let a = spec_abs(c)->Some_0;
            let name = pnames[fi as int];
            let cs = coeff_text(a) + name;
            let piece = if c.num < 0 {
                "-"@ + cs
            } else if parts.len() == 0 {
                cs
            } else {
                "+ "@ + cs
            };
            let p1 = parts.push(piece);
            law_term_parts_read_back(coeffs, pnames, fi + 1, nf, p1);
            let ps = term_parts(coeffs, pnames, fi, nf, parts)->Some_0;
            let nz = nonzero_places(coeffs, fi, nf);
            let nz1 = nonzero_places(coeffs, fi + 1, nf);
            assert(nz == seq![fi] + nz1);
            lemma_piece_reads(c, name, parts.len() == 0);
            assert(ps.subrange(0, p1.len() as int) == p1);
            assert(ps[parts.len() as int] == p1[parts.len() as int]);
            assert forall|j: int| 0 <= j < nz.len() implies fi <= #[trigger] nz[j] < nf by {
                if j > 0 {
                    assert(nz[j] == nz1[j - 1]);
                }
            }
            assert forall|j: int| 0 <= j < nz.len() implies read_term_piece(#[trigger] ps[parts.len() + j], pnames[nz[j] as int]) == Some(
                fr(coeffs[nz[j] as int]),
            ) by {
                if j > 0 {
                    assert(nz[j] == nz1[j - 1]);
                    assert(ps[parts.len() + j] == ps[p1.len() + (j - 1)]);
                }
            }
            assert(ps.subrange(0, parts.len() as int) =~= p1.subrange(0, parts.len() as int));
            assert(p1.subrange(0, parts.len() as int) =~= parts);
        }
    }
}

/// The text of an affine expression in the parameters reads back as the expression:
/// it is made of pieces, one for each non-zero coefficient in order, each reading
/// back with its parameter's name as that coefficient, then, where the constant is
/// not zero, one that reads back as the constant.
pub proof fn law_expression_text_reads_back(ex: Expr, pnames: Seq<Seq<char>>, nf: nat)
    requires
        nf <= ex.0.len(),
        nf <= pnames.len(),
        forall|i: int| 0 <= i < nf ==> wf(#[trigger] ex.0[i]),
        wf(ex.1),
    ensures
        format_expr(ex, pnames, nf) matches Some(t) ==> exists|ps: Seq<Seq<char>>|
            #[trigger] expr_text(ps) == t && {
                let nz = nonzero_places(ex.0, 0, nf);
                &&& ps.len() == nz.len() + if ex.1.num == 0 { 0int } else { 1int }
                &&& forall|j: int|
                    0 <= j < nz.len() ==> read_term_piece(#[trigger] ps[j], pnames[nz[j] as int]) == Some(
                        fr(ex.0[nz[j] as int]),
                    )
                &&& ex.1.num != 0 ==> read_signed(ps.last()) == Some(fr(ex.1))
            },
{
    if format_expr(ex, pnames, nf) is Some {
        let empty = Seq::<Seq<char>>::empty();
        law_term_parts_read_back(ex.0, pnames, 0, nf, empty);
        let parts = term_parts(ex.0, pnames, 0, nf, empty)->Some_0;
        law_constant_part_reads_back(ex.1, parts);
        let ps = constant_part(ex.1, parts)->Some_0;
        let nz = nonzero_places(ex.0, 0, nf);
        assert forall|j: int| 0 <= j < nz.len() implies read_term_piece(#[trigger] ps[j], pnames[nz[j] as int]) == Some(
            fr(ex.0[nz[j] as int]),
        ) by {
            assert(ps[j] == ps.subrange(0, parts.len() as int)[j]);
            assert(parts[0 + j] == parts[j]);
        }
        assert(expr_text(ps) == format_expr(ex, pnames, nf)->Some_0);
    }
}

/// The two row numbers a swap label `R{a} ↔ R{b}` names.
pub open spec fn read_swap_label(l: Seq<char>) -> Option<(int, int)> {
    let k = index_of(l, '↔');
    if 2 <= k && k + 3 <= l.len() && l[0] == 'R' && l[k - 1] == ' ' && l[k + 1] == ' ' && l[k + 2] == 'R'
        && all_digits(l.subrange(1, k - 1)) && all_digits(l.subrange(k + 3, l.len() as int)) {
        Some((digits_value(l.subrange(1, k - 1)) as int, digits_value(l.subrange(k + 3, l.len() as int)) as int))
    } else {
        None
    }
}

/// A swap label reads back as the numbers (counted from 1) of the two rows it names.
pub proof fn lemma_read_swap_label(a: nat, b: nat)
    ensures
        read_swap_label(swap_label_spec(a, b)) == Some(((a + 1) as int, (b + 1) as int)),
{
    reveal_strlit("R");
    reveal_strlit(" ↔ R");
    let x = dec_nat(a + 1);
    let y = dec_nat(b + 1);
    lemma_dec_nat(a + 1);
    lemma_dec_nat(b + 1);
    let l = swap_label_spec(a, b);
    assert(l =~= "R"@ + x + " ↔ R"@ + y);
    let k = x.len() as int + 2;
    assert(l[k] == '↔');
    assert forall|i: int| 0 <= i < k implies l[i] != '↔' by {
        if 1 <= i < x.len() + 1 {
            assert(l[i] == x[i - 1]);
            assert(is_digit_spec(x[i - 1]));
        }
    }
    lemma_index_of_at(l, '↔', k);
    assert(l.subrange(1, k - 1) =~= x);
    assert(l.subrange(k + 3, l.len() as int) =~= y);
}

/// The number a matrix cell's text writes, a space on each side left out.
pub open spec fn read_cell(s: Seq<char>) -> Option<Frac> {
    if s.len() >= 2 && s[0] == ' ' && s[s.len() - 1] == ' ' {
        read_number(s.subrange(1, s.len() - 1))
    } else {
        read_number(s)
    }
}

/// The text of a matrix cell reads back as the cell's fraction.
pub proof fn law_cell_text_reads_back(c: CellVal)
    ensures
        read_cell(cell_text(c)) == Some((c.num as int, c.den as int)),
{
    reveal_strlit(" ");
    reveal_strlit("/");
    let t = cell_text(c);
    lemma_read_dec_int(c.num as int);
    let a = dec_int(c.num as int);
    if c.num < 0 {
        assert(a[0] == '-');
    } else {
        lemma_dec_nat(c.num as nat);
        assert(is_digit_spec(a[0]));
    }
    if c.den == 1 {
        if c.num >= 0 {
            assert(t =~= seq![' '] + a + seq![' ']);
            assert(t.subrange(1, t.len() - 1) =~= a);
        }
        lemma_read_int_text(c.num as int);
    } else {
        let r = Rational { num: c.num, den: c.den };
        lemma_read_display(r);
        assert(t =~= display_spec(r));
        assert(t[0] == a[0]);
    }
}

} // verus!
