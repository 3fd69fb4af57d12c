use vstd::prelude::*;
use crate::lexer::{digit_run_end, ident_char, ident_run_end, lex, lex_from, SpecToken};
use crate::reading::lemma_dec_nat;
use crate::symmetry::{cut_after, lemma_lex_prefix, lemma_lex_shift};
use crate::text::{char_is_alphabetic, char_is_whitespace, dec_nat, is_digit_spec};

verus! {

// ---------------------------------------------------------------------------
// Writing tokens and lexing them back
// ---------------------------------------------------------------------------

/// The text of a token: a number in decimal, a name as it is, an operator as its
/// character.
pub open spec fn token_text(t: SpecToken) -> Seq<char> {
    match t {
        SpecToken::Number(n) => dec_nat(n as nat),
        SpecToken::Ident(s) => s,
        SpecToken::Plus => seq!['+'],
        SpecToken::Minus => seq!['-'],
        SpecToken::Star => seq!['*'],
        SpecToken::Slash => seq!['/'],
        SpecToken::Equals => seq!['='],
    }
}

/// The texts of the tokens, separated by single spaces.
pub open spec fn tokens_text(ts: Seq<SpecToken>) -> Seq<char>
    decreases ts.len(),
{
    if ts.len() == 0 {
        Seq::empty()
    } else if ts.len() == 1 {
        token_text(ts[0])
    } else {
        tokens_text(ts.drop_last()) + seq![' '] + token_text(ts.last())
    }
}

/// A token that its text gives back: a number that is not negative, or a name that
/// starts with an alphabetic character that is not whitespace and goes on with
/// alphanumeric characters and '_'.
pub open spec fn writable(t: SpecToken) -> bool {
    match t {
        SpecToken::Number(n) => n >= 0,
        SpecToken::Ident(s) => s.len() > 0 && char_is_alphabetic(s[0]) && !char_is_whitespace(s[0])
            && forall|i: int| 1 <= i < s.len() ==> ident_char(#[trigger] s[i]),
        _ => true,
    }
}

proof fn lemma_runs_to_end(s: Seq<char>, i: int)
    requires
        0 <= i <= s.len(),
    ensures
        (forall|k: int| i <= k < s.len() ==> is_digit_spec(#[trigger] s[k])) ==> digit_run_end(s, i) == s.len(),
        (forall|k: int| i <= k < s.len() ==> ident_char(#[trigger] s[k])) ==> ident_run_end(s, i) == s.len(),
    decreases s.len() - i,
{
    if i < s.len() {
        lemma_runs_to_end(s, i + 1);
    }
}

/// One token's text lexes back to the token.
proof fn lemma_lex_token(t: SpecToken)
    requires
        writable(t),
    ensures
        lex(token_text(t)) == Ok::<Seq<SpecToken>, Seq<char>>(seq![t]),
{
    let s = token_text(t);
    match t {
        SpecToken::Number(n) => {
            lemma_dec_nat(n as nat);
            lemma_runs_to_end(s, 0);
            assert(is_digit_spec(s[0]));
            assert(s.subrange(0, s.len() as int) =~= s);
            assert(!char_is_whitespace(s[0]));
            assert(lex_from(s, s.len() as int) == Ok::<Seq<SpecToken>, Seq<char>>(Seq::empty()));
            assert(seq![t] =~= seq![t] + Seq::<SpecToken>::empty());
        },
        SpecToken::Ident(name) => {
            lemma_runs_to_end(s, 1);
            assert(!is_digit_spec(s[0]));
            assert(lex_from(s, s.len() as int) == Ok::<Seq<SpecToken>, Seq<char>>(Seq::empty()));
            assert(s.subrange(0, s.len() as int) =~= s);
            assert(seq![t] =~= seq![t] + Seq::<SpecToken>::empty());
        },
        _ => {
            assert(s.len() == 1);
            assert(!char_is_whitespace(s[0]));
            assert(seq![t] =~= seq![t] + Seq::<SpecToken>::empty());
        },
    }
}

/// Writing tokens with single spaces between them and lexing the text gives the
/// tokens back.
pub proof fn law_lex_reads_written_tokens(ts: Seq<SpecToken>)
    requires
        forall|i: int| 0 <= i < ts.len() ==> writable(#[trigger] ts[i]),
    ensures
        lex(tokens_text(ts)) == Ok::<Seq<SpecToken>, Seq<char>>(ts),
    decreases ts.len(),
{
    if ts.len() == 0 {
        assert(ts =~= Seq::<SpecToken>::empty());
    } else if ts.len() == 1 {
        lemma_lex_token(ts[0]);
        assert(ts =~= seq![ts[0]]);
    } else {
        let init = ts.drop_last();
        let t = ts.last();
        assert(forall|i: int| 0 <= i < init.len() ==> writable(#[trigger] init[i])) by {
            assert forall|i: int| 0 <= i < init.len() implies writable(#[trigger] init[i]) by {
                assert(init[i] == ts[i]);
            }
        }
        assert(writable(ts[ts.len() - 1]));
        law_lex_reads_written_tokens(init);
        lemma_lex_token(t);
        let l = tokens_text(init);
        let p = l + seq![' '];
        let s = p + token_text(t);
        assert(s =~= tokens_text(ts));
        assert(s[l.len() as int] == ' ');
        assert(cut_after(s, l)) by {
            assert forall|k: int| 0 <= k < l.len() implies #[trigger] s[k] == l[k] by {}
        }
        lemma_lex_prefix(s, l, 0);
        lemma_lex_shift(p, token_text(t), 0);
        assert(char_is_whitespace(' '));
        assert(lex_from(s, l.len() as int) == lex_from(s, l.len() as int + 1));
        assert(p.len() == l.len() + 1);
        assert(init + seq![t] =~= ts);
    }
}

} // verus!
