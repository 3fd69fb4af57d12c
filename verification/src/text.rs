use vstd::prelude::*;
use vstd::arithmetic::div_mod::*;
use crate::number_theory::abs_int;

verus! {

// ---------------------------------------------------------------------------
// Trusted facts about std's `String` and `char`
// ---------------------------------------------------------------------------

/// `String::push` appends one character.
pub assume_specification[ String::push ](s: &mut String, ch: char)
    ensures
        final(s)@ == old(s)@.push(ch),
;

/// `char::is_whitespace` as std documents it: the Unicode `White_Space` property,
/// which holds of U+0009..U+000D, U+0020, U+0085, U+00A0, U+1680, U+2000..U+200A,
/// U+2028, U+2029, U+202F, U+205F and U+3000.
pub open spec fn char_is_whitespace(c: char) -> bool {
    let u = c as u32;
    ||| 0x9 <= u <= 0xD
    ||| u == 0x20
    ||| u == 0x85
    ||| u == 0xA0
    ||| u == 0x1680
    ||| 0x2000 <= u <= 0x200A
    ||| u == 0x2028
    ||| u == 0x2029
    ||| u == 0x202F
    ||| u == 0x205F
    ||| u == 0x3000
}

/// An ASCII letter.
pub open spec fn ascii_letter(c: char) -> bool {
    ('a' <= c && c <= 'z') || ('A' <= c && c <= 'Z')
}

/// Whether `char::is_alphabetic` holds of a character beyond ASCII (the Unicode
/// `Alphabetic` property).
pub uninterp spec fn alphabetic_beyond_ascii(c: char) -> bool;

/// Whether `char::is_alphanumeric` holds of a character beyond ASCII (`Alphabetic`
/// or `Numeric`).
pub uninterp spec fn alphanumeric_beyond_ascii(c: char) -> bool;

/// `char::is_alphabetic`: among ASCII characters the letters; beyond ASCII, named.
pub open spec fn char_is_alphabetic(c: char) -> bool {
    if (c as u32) < 128 {
        ascii_letter(c)
    } else {
        alphabetic_beyond_ascii(c)
    }
}

/// `char::is_alphanumeric`: among ASCII characters the letters and digits; beyond
/// ASCII, named.
pub open spec fn char_is_alphanumeric(c: char) -> bool {
    if (c as u32) < 128 {
        ascii_letter(c) || ('0' <= c && c <= '9')
    } else {
        alphanumeric_beyond_ascii(c)
    }
}

/// What `<str as Debug>::fmt` writes for a string: the string in double quotes,
/// with the characters that Rust escapes in debug output escaped.
pub uninterp spec fn debug_quoted(s: Seq<char>) -> Seq<char>;

/// Whether `c` is whitespace in the sense of `char::is_whitespace`: the Unicode
/// `White_Space` property, decided over its code points.
pub(crate) fn is_whitespace(c: char) -> (b: bool)
    ensures
        b == char_is_whitespace(c),
{
    let u = c as u32;
    (0x9 <= u && u <= 0xD) || u == 0x20 || u == 0x85 || u == 0xA0 || u == 0x1680 || (0x2000
        <= u && u <= 0x200A) || u == 0x2028 || u == 0x2029 || u == 0x202F || u == 0x205F || u
        == 0x3000
}

/// Calls `char::is_alphabetic` (the Unicode `Alphabetic` property): the ASCII
/// letters among ASCII characters; beyond ASCII the result is named, not stated.
#[verifier::external_body]
pub(crate) fn is_alphabetic(c: char) -> (b: bool)
    ensures
        b == char_is_alphabetic(c),
        (c as u32) >= 128 ==> b == alphabetic_beyond_ascii(c),
{
    c.is_alphabetic()
}

/// Calls `char::is_alphanumeric` (`Alphabetic` or `Numeric`): the ASCII letters and
/// digits among ASCII characters; beyond ASCII the result is named, not stated.
#[verifier::external_body]
pub(crate) fn is_alphanumeric(c: char) -> (b: bool)
    ensures
        b == char_is_alphanumeric(c),
        (c as u32) >= 128 ==> b == alphanumeric_beyond_ascii(c),
{
    c.is_alphanumeric()
}

/// Formats a string with `{:?}` (std's `Debug` for `str`); the result is named, not
/// stated.
#[verifier::external_body]
pub(crate) fn debug_string(s: &str) -> (r: String)
    ensures
        r@ == debug_quoted(s@),
{
    format!("{:?}", s)
}

// ---------------------------------------------------------------------------
// Characters and decimal numerals
// ---------------------------------------------------------------------------

/// `char::is_ascii_digit`: one of '0'..='9'.
pub open spec fn is_digit_spec(c: char) -> bool {
    '0' <= c && c <= '9'
}

pub fn is_ascii_digit(c: char) -> (b: bool)
    ensures
        b == is_digit_spec(c),
{
    '0' <= c && c <= '9'
}

/// The numeric value of a digit character.
pub open spec fn digit_value(c: char) -> nat {
    ((c as u32) - ('0' as u32)) as nat
}

/// The character of a digit value `0..=9`.
pub open spec fn digit_char(d: nat) -> char {
    (d + ('0' as u32)) as char
}

/// Decimal numeral of a natural number, most significant digit first, no leading
/// zeros ("0" for zero).
pub open spec fn dec_nat(n: nat) -> Seq<char>
    decreases n,
{
    if n < 10 {
        seq![digit_char(n)]
    } else {
        dec_nat(n / 10).push(digit_char(n % 10))
    }
}

/// Decimal numeral of an integer, with a leading '-' for negative values.
pub open spec fn dec_int(x: int) -> Seq<char> {
    if x < 0 {
        seq!['-'] + dec_nat(abs_int(x))
    } else {
        dec_nat(x as nat)
    }
}

/// Value of a run of decimal digits (most significant first).
pub open spec fn digits_value(s: Seq<char>) -> nat
    decreases s.len(),
{
    if s.len() == 0 {
        0
    } else {
        digits_value(s.drop_last()) * 10 + digit_value(s.last())
    }
}

/// Appends the characters of `t` to `s`.
pub fn push_str(s: &mut String, t: &str)
    ensures
        final(s)@ == old(s)@ + t@,
{
    s.append(t);
}

/// A new `String` holding the characters of `v`.
pub fn string_from_chars(v: &Vec<char>) -> (s: String)
    ensures
        s@ == v@,
{
    let mut s = String::new();
    let mut i: usize = 0;
    while i < v.len()
        invariant
            i <= v.len(),
            s@ == v@.subrange(0, i as int),
        decreases v.len() - i,
    {
        s.push(v[i]);
        i = i + 1;
        assert(s@ =~= v@.subrange(0, i as int));
    }
    assert(v@.subrange(0, v.len() as int) =~= v@);
    s
}

/// The characters of a string.
pub fn chars_of(s: &str) -> (v: Vec<char>)
    ensures
        v@ == s@,
{
    let n = s.unicode_len();
    let mut v: Vec<char> = Vec::new();
    let mut i: usize = 0;
    while i < n
        invariant
            n == s@.len(),
            i <= n,
            v@ == s@.subrange(0, i as int),
        decreases n - i,
    {
        v.push(s.get_char(i));
        i = i + 1;
        assert(v@ =~= s@.subrange(0, i as int));
    }
    assert(s@.subrange(0, n as int) =~= s@);
    v
}

/// Decimal numeral of an unsigned magnitude.
pub fn u128_to_string(n: u128) -> (s: String)
    ensures
        s@ == dec_nat(n as nat),
{
    // digits, least significant first
    let mut rev: Vec<char> = Vec::new();
    let mut m: u128 = n;
    assert(dec_nat(n as nat) =~= dec_nat(m as nat) + rev@.reverse());
    loop
        invariant_except_break
            m <= n,
            dec_nat(n as nat) == dec_nat(m as nat) + rev@.reverse(),
        ensures
            dec_nat(n as nat) == rev@.reverse(),
        decreases m,
    {
        let d = m % 10;
        let c = char_of_digit(d);
        if m < 10 {
            let ghost old_rev = rev@;
            rev.push(c);
            proof {
                assert(dec_nat(m as nat) == seq![digit_char(m as nat)]);
                assert(rev@.drop_last() =~= old_rev);
                assert(rev@.reverse() =~= seq![c] + old_rev.reverse());
            }
            break;
        }
        proof {
            assert(dec_nat(m as nat) == dec_nat((m / 10) as nat).push(digit_char((m % 10) as nat)));
            let old_rev = rev@;
            assert(old_rev.push(c).reverse() =~= seq![c] + old_rev.reverse());
        }
        rev.push(c);
        m = m / 10;
        proof {
            assert(dec_nat(n as nat) =~= dec_nat(m as nat) + rev@.reverse());
        }
    }
    let mut out: Vec<char> = Vec::new();
    let mut i: usize = rev.len();
    while i > 0
        invariant
            i <= rev.len(),
            out@ == rev@.subrange(i as int, rev.len() as int).reverse(),
        decreases i,
    {
        i = i - 1;
        out.push(rev[i]);
        assert(out@ =~= rev@.subrange(i as int, rev.len() as int).reverse());
    }
    assert(rev@.subrange(0, rev.len() as int) =~= rev@);
    string_from_chars(&out)
}

fn char_of_digit(d: u128) -> (c: char)
    requires
        d < 10,
    ensures
        c == digit_char(d as nat),
{
    let c: char = if d == 0 {
        '0'
    } else if d == 1 {
        '1'
    } else if d == 2 {
        '2'
    } else if d == 3 {
        '3'
    } else if d == 4 {
        '4'
    } else if d == 5 {
        '5'
    } else if d == 6 {
        '6'
    } else if d == 7 {
        '7'
    } else if d == 8 {
        '8'
    } else {
        '9'
    };
    c
}

/// Decimal numeral of an `i128` (what `{}` writes for it).
pub fn i128_to_string(x: i128) -> (s: String)
    ensures
        s@ == dec_int(x as int),
{
    if x < 0 {
        let y: i128 = -(x + 1);
        let m: u128 = (y as u128) + 1;
        let digits = u128_to_string(m);
        let mut s = String::new();
        s.push('-');
        push_str(&mut s, digits.as_str());
        assert(s@ =~= seq!['-'] + dec_nat(abs_int(x as int)));
        s
    } else {
        u128_to_string(x as u128)
    }
}

} // verus!
