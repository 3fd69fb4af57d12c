use vstd::prelude::*;
use crate::text::{
    char_is_alphabetic, char_is_alphanumeric, char_is_whitespace, chars_of, debug_quoted,
    debug_string, dec_int, digit_value, digits_value, i128_to_string, is_alphabetic,
    is_alphanumeric, is_ascii_digit, is_digit_spec, is_whitespace, push_str, string_from_chars,
};

verus! {

/// A lexical token of an equation.
#[derive(Debug)]
pub enum Token {
    Number(i128),
    Ident(String),
    Plus,
    Minus,
    Star,
    Slash,
    Equals,
}

/// The mathematical view of a [`Token`].
pub enum SpecToken {
    Number(i128),
    Ident(Seq<char>),
    Plus,
    Minus,
    Star,
    Slash,
    Equals,
}

impl View for Token {
    type V = SpecToken;

    open spec fn view(&self) -> SpecToken {
        match self {
            Token::Number(n) => SpecToken::Number(*n),
            Token::Ident(s) => SpecToken::Ident(s@),
            Token::Plus => SpecToken::Plus,
            Token::Minus => SpecToken::Minus,
            Token::Star => SpecToken::Star,
            Token::Slash => SpecToken::Slash,
            Token::Equals => SpecToken::Equals,
        }
    }
}

pub open spec fn tokens_view(v: Seq<Token>) -> Seq<SpecToken> {
    v.map_values(|t: Token| t@)
}

// ---------------------------------------------------------------------------
// Messages
// ---------------------------------------------------------------------------

pub open spec fn msg_bad_number(digits: Seq<char>) -> Seq<char> {
    "Ungültige Zahl: "@ + digits
}

pub open spec fn msg_unexpected_char(c: char) -> Seq<char> {
    "Unerwartetes Zeichen: '"@ + seq![c] + "'"@
}

/// What `{:?}` writes for a token.
pub open spec fn token_debug(t: SpecToken) -> Seq<char> {
    match t {
        SpecToken::Number(n) => "Number("@ + dec_int(n as int) + ")"@,
        SpecToken::Ident(s) => "Ident("@ + debug_quoted(s) + ")"@,
        SpecToken::Plus => "Plus"@,
        SpecToken::Minus => "Minus"@,
        SpecToken::Star => "Star"@,
        SpecToken::Slash => "Slash"@,
        SpecToken::Equals => "Equals"@,
    }
}

/// The text `{:?}` writes for a token.
pub fn token_debug_string(t: &Token) -> (s: String)
    ensures
        s@ == token_debug(t@),
{
    match t {
        Token::Number(n) => {
            let mut s = String::from_str("Number(");
            let d = i128_to_string(*n);
            push_str(&mut s, d.as_str());
            push_str(&mut s, ")");
            s
        },
        Token::Ident(name) => {
            let mut s = String::from_str("Ident(");
            let d = debug_string(name.as_str());
            push_str(&mut s, d.as_str());
            push_str(&mut s, ")");
            s
        },
        Token::Plus => String::from_str("Plus"),
        Token::Minus => String::from_str("Minus"),
        Token::Star => String::from_str("Star"),
        Token::Slash => String::from_str("Slash"),
        Token::Equals => String::from_str("Equals"),
    }
}

// ---------------------------------------------------------------------------
// Lexing
// ---------------------------------------------------------------------------

/// End of the run of ASCII digits that starts at `i`.
pub open spec fn digit_run_end(s: Seq<char>, i: int) -> int
    decreases s.len() - i,
{
    if 0 <= i < s.len() && is_digit_spec(s[i]) {
        digit_run_end(s, i + 1)
    } else {
        i
    }
}

/// Continues an identifier: alphanumeric or '_'.
pub open spec fn ident_char(c: char) -> bool {
    char_is_alphanumeric(c) || c == '_'
}

/// End of the run of identifier characters that starts at `i`.
pub open spec fn ident_run_end(s: Seq<char>, i: int) -> int
    decreases s.len() - i,
{
    if 0 <= i < s.len() && ident_char(s[i]) {
        ident_run_end(s, i + 1)
    } else {
        i
    }
}

/// Puts `t` in front of the tokens of a successful result.
pub open spec fn prepend(t: SpecToken, r: Result<Seq<SpecToken>, Seq<char>>) -> Result<
    Seq<SpecToken>,
    Seq<char>,
> {
    match r {
        Ok(ts) => Ok(seq![t] + ts),
        Err(e) => Err(e),
    }
}

/// Puts the tokens `p` in front of the tokens of a successful result.
pub open spec fn glue(p: Seq<SpecToken>, r: Result<Seq<SpecToken>, Seq<char>>) -> Result<
    Seq<SpecToken>,
    Seq<char>,
> {
    match r {
        Ok(ts) => Ok(p + ts),
        Err(e) => Err(e),
    }
}

/// The tokens of `s` from position `i` on, or the message of the first character
/// that cannot start a token. Whitespace is skipped; `+ - * / =` are single tokens;
/// a run of ASCII digits is a number (an error where it exceeds `i128::MAX`); an
/// alphabetic character followed by alphanumerics and '_' is an identifier.
pub open spec fn lex_from(s: Seq<char>, i: int) -> Result<Seq<SpecToken>, Seq<char>>
    decreases s.len() - i,
{
    if i < 0 || i >= s.len() {
        Ok(Seq::empty())
    } else {
        let c = s[i];
        if char_is_whitespace(c) {
            lex_from(s, i + 1)
        } else if c == '+' {
            prepend(SpecToken::Plus, lex_from(s, i + 1))
        } else if c == '-' {
            prepend(SpecToken::Minus, lex_from(s, i + 1))
        } else if c == '*' {
            prepend(SpecToken::Star, lex_from(s, i + 1))
        } else if c == '/' {
            prepend(SpecToken::Slash, lex_from(s, i + 1))
        } else if c == '=' {
            prepend(SpecToken::Equals, lex_from(s, i + 1))
        } else if is_digit_spec(c) {
            let j = digit_run_end(s, i);
            let digits = s.subrange(i, j);
            if digits_value(digits) > i128::MAX {
                Err(msg_bad_number(digits))
            } else if i < j <= s.len() {
                prepend(SpecToken::Number(digits_value(digits) as i128), lex_from(s, j))
            } else {
                Ok(Seq::empty())
            }
        } else if char_is_alphabetic(c) {
            let j = ident_run_end(s, i + 1);
            if i < j <= s.len() {
                prepend(SpecToken::Ident(s.subrange(i, j)), lex_from(s, j))
            } else {
                Ok(Seq::empty())
            }
        } else {
            Err(msg_unexpected_char(c))
        }
    }
}

/// The tokens of `s`.
pub open spec fn lex(s: Seq<char>) -> Result<Seq<SpecToken>, Seq<char>> {
    lex_from(s, 0)
}

proof fn lemma_digits_value_monotone(s: Seq<char>, k: int)
    requires
        0 <= k <= s.len(),
    ensures
        digits_value(s.subrange(0, k)) <= digits_value(s),
    decreases s.len() - k,
{
    if k < s.len() {
        lemma_digits_value_monotone(s, k + 1);
        let t = s.subrange(0, k + 1);
        assert(t.drop_last() =~= s.subrange(0, k));
    } else {
        assert(s.subrange(0, k) =~= s);
    }
}

/// The value of the digit run `s[i..j]`, or `None` where it exceeds `i128::MAX`.
fn parse_digits(s: &Vec<char>, i: usize, j: usize) -> (r: Option<i128>)
    requires
        i <= j <= s.len(),
        forall|k: int| i <= k < j ==> is_digit_spec(#[trigger] s@[k]),
    ensures
        match r {
            Some(v) => v as int == digits_value(s@.subrange(i as int, j as int)),
            None => digits_value(s@.subrange(i as int, j as int)) > i128::MAX,
        },
{
    let mut acc: i128 = 0;
    let mut k: usize = i;
    assert(s@.subrange(i as int, i as int) =~= Seq::<char>::empty());
    while k < j
        invariant
            i <= k <= j,
            j <= s.len(),
            forall|m: int| i <= m < j ==> is_digit_spec(#[trigger] s@[m]),
            acc as int == digits_value(s@.subrange(i as int, k as int)),
        decreases j - k,
    {
        let c = s[k];
        let d: i128 = ((c as u32) - ('0' as u32)) as i128;
        assert(s@.subrange(i as int, k + 1).drop_last() =~= s@.subrange(i as int, k as int));
        assert(s@.subrange(i as int, k + 1).last() == c);
        let t = match acc.checked_mul(10) {
            Some(t) => t,
            None => {
                proof {
                    lemma_digits_value_monotone(s@.subrange(i as int, j as int), (k + 1 - i) as int);
                    assert(s@.subrange(i as int, j as int).subrange(0, (k + 1 - i) as int)
                        =~= s@.subrange(i as int, k + 1));
                }
                return None;
            },
        };
        acc = match t.checked_add(d) {
            Some(v) => v,
            None => {
                proof {
                    lemma_digits_value_monotone(s@.subrange(i as int, j as int), (k + 1 - i) as int);
                    assert(s@.subrange(i as int, j as int).subrange(0, (k + 1 - i) as int)
                        =~= s@.subrange(i as int, k + 1));
                }
                return None;
            },
        };
        k = k + 1;
    }
    Some(acc)
}

/// Splits an equation into tokens.
pub fn tokenize(input: &str) -> (r: Result<Vec<Token>, String>)
    ensures
        match r {
            Ok(v) => lex(input@) == Ok::<Seq<SpecToken>, Seq<char>>(tokens_view(v@)),
            Err(e) => lex(input@) == Err::<Seq<SpecToken>, Seq<char>>(e@),
        },
{
    let chars = chars_of(input);
    let ghost s = input@;
    let mut tokens: Vec<Token> = Vec::new();
    let mut i: usize = 0;
    let len = chars.len();
    assert(glue(Seq::empty(), lex_from(s, 0)) == lex_from(s, 0)) by {
        match lex_from(s, 0) {
            Ok(ts) => {
                assert(Seq::<SpecToken>::empty() + ts =~= ts);
            },
            Err(e) => {},
        }
    }
    while i < len
        invariant
            chars@ == s,
            s == input@,
            len == s.len(),
            i <= len,
            lex_from(s, 0) == glue(tokens_view(tokens@), lex_from(s, i as int)),
        decreases len - i,
    {
        let c = chars[i];
        let ghost before = tokens_view(tokens@);
        if is_whitespace(c) {
            i = i + 1;
            continue;
        }
        let single: Option<Token> = if c == '+' {
            Some(Token::Plus)
        } else if c == '-' {
            Some(Token::Minus)
        } else if c == '*' {
            Some(Token::Star)
        } else if c == '/' {
            Some(Token::Slash)
        } else if c == '=' {
            Some(Token::Equals)
        } else {
            None
        };
        match single {
            Some(t) => {
                let ghost tv = t@;
                tokens.push(t);
                i = i + 1;
                proof {
                    lemma_glue_push(before, tv, lex_from(s, i as int));
                    assert(tokens_view(tokens@) =~= before.push(tv));
                }
            },
            None => {
                if is_ascii_digit(c) {
                    let start = i;
                    while i < len && is_ascii_digit(chars[i])
                        invariant
                            start <= i <= len,
                            chars@ == s,
                            s == input@,
                            len == s.len(),
                            digit_run_end(s, start as int) == digit_run_end(s, i as int),
                            lex_from(s, 0) == glue(tokens_view(tokens@), lex_from(s, start as int)),
                            before == tokens_view(tokens@),
                            c == s[start as int],
                            forall|k: int| start <= k < i ==> is_digit_spec(#[trigger] s[k]),
                        decreases len - i,
                    {
                        i = i + 1;
                    }
                    proof {
                        assert(digit_run_end(s, i as int) == i as int);
                    }
                    match parse_digits(&chars, start, i) {
                        Some(v) => {
                            let t = Token::Number(v);
                            let ghost tv = t@;
                            tokens.push(t);
                            proof {
                                lemma_glue_push(before, tv, lex_from(s, i as int));
                                assert(tokens_view(tokens@) =~= before.push(tv));
                            }
                        },
                        None => {
                            let mut msg = String::from_str("Ungültige Zahl: ");
                            let digits = string_from_chars(&slice_chars(&chars, start, i));
                            push_str(&mut msg, digits.as_str());
                            proof {
                                assert(lex_from(s, start as int) == Err::<Seq<SpecToken>, Seq<char>>(msg@));
                            }
                            return Err(msg);
                        },
                    }
                } else if is_alphabetic(c) {
                    let start = i;
                    i = i + 1;
                    while i < len && (is_alphanumeric(chars[i]) || chars[i] == '_')
                        invariant
                            start < i <= len,
                            chars@ == s,
                            s == input@,
                            len == s.len(),
                            ident_run_end(s, start + 1) == ident_run_end(s, i as int),
                            lex_from(s, 0) == glue(tokens_view(tokens@), lex_from(s, start as int)),
                            before == tokens_view(tokens@),
                            c == s[start as int],
                        decreases len - i,
                    {
                        i = i + 1;
                    }
                    proof {
                        assert(ident_run_end(s, i as int) == i as int);
                    }
                    let name = string_from_chars(&slice_chars(&chars, start, i));
                    let t = Token::Ident(name);
                    let ghost tv = t@;
                    tokens.push(t);
                    proof {
                        lemma_glue_push(before, tv, lex_from(s, i as int));
                        assert(tokens_view(tokens@) =~= before.push(tv));
                    }
                } else {
                    let mut msg = String::from_str("Unerwartetes Zeichen: '");
                    msg.push(c);
                    push_str(&mut msg, "'");
                    proof {
                        assert(msg@ =~= msg_unexpected_char(c));
                        assert(lex_from(s, i as int) == Err::<Seq<SpecToken>, Seq<char>>(msg@));
                    }
                    return Err(msg);
                }
            },
        }
    }
    proof {
        assert(tokens_view(tokens@) + Seq::<SpecToken>::empty() =~= tokens_view(tokens@));
    }
    Ok(tokens)
}

proof fn lemma_glue_push(p: Seq<SpecToken>, t: SpecToken, r: Result<Seq<SpecToken>, Seq<char>>)
    ensures
        glue(p, prepend(t, r)) == glue(p.push(t), r),
{
    match r {
        Ok(ts) => {
            assert(p + (seq![t] + ts) =~= p.push(t) + ts);
        },
        Err(e) => {},
    }
}

/// The characters `v[i..j]`.
fn slice_chars(v: &Vec<char>, i: usize, j: usize) -> (r: Vec<char>)
    requires
        i <= j <= v.len(),
    ensures
        r@ == v@.subrange(i as int, j as int),
{
    let mut r: Vec<char> = Vec::new();
    let mut k = i;
    while k < j
        invariant
            i <= k <= j,
            j <= v.len(),
            r@ == v@.subrange(i as int, k as int),
        decreases j - k,
    {
        r.push(v[k]);
        k = k + 1;
        assert(r@ =~= v@.subrange(i as int, k as int));
    }
    r
}

} // verus!
