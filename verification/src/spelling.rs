//! The scanner read backwards: how tokens are spelled out.
//!
//! [`spelling`] writes a sequence of tokens as characters, and
//! [`lemma_lex_spelling`] shows that scanning reads the tokens back.

use vstd::prelude::*;
use crate::lexer::{
    decimal, digits_end, is_digit, lex, scan, skip_spaces, tokens_from, LexError,
};
use crate::seq_facts::lemma_split_window;
use crate::token::{unsigned, Token};

verus! {

/// The character for the digit `d`, `0 <= d <= 9`.
pub open spec fn digit_char(d: int) -> char {
    ('0' as int + d) as char
}

/// `n` in base ten, without leading zeros.
pub open spec fn numeral(n: nat) -> Seq<char>
    decreases n,
{
    if n < 10 {
        seq![digit_char(n as int)]
    } else {
        numeral(n / 10).push(digit_char((n % 10) as int))
    }
}

/// The characters of one token. A literal has no sign of its own, so only
/// literals from zero up can be spelled.
pub open spec fn token_spelling(token: Token) -> Seq<char> {
    match token {
        Token::Number(n) => numeral(n as nat),
        Token::Plus => seq!['+'],
        Token::Minus => seq!['-'],
        Token::Multiply => seq!['*'],
        Token::Divide => seq!['/'],
        Token::LeftParen => seq!['('],
        Token::RightParen => seq![')'],
    }
}

/// The tokens one after the other, each followed by a space.
pub open spec fn spelling(tokens: Seq<Token>) -> Seq<char>
    decreases tokens.len(),
{
    if tokens.len() == 0 {
        Seq::empty()
    } else {
        token_spelling(tokens[0]) + seq![' '] + spelling(tokens.drop_first())
    }
}

proof fn lemma_numeral_digits(n: nat)
    ensures
        numeral(n).len() >= 1,
        forall|k: int| 0 <= k < numeral(n).len() ==> is_digit(#[trigger] numeral(n)[k]),
    decreases n,
{
    if n >= 10 {
        lemma_numeral_digits(n / 10);
    }
}

/// Where `s` holds the numeral of `n`, the digits there have the value `n`.
proof fn lemma_numeral_value(s: Seq<char>, from: int, n: nat)
    requires
        0 <= from,
        from + numeral(n).len() <= s.len(),
        s.subrange(from, from + numeral(n).len()) == numeral(n),
    ensures
        decimal(s, from, from + numeral(n).len()) == n,
    decreases n,
{
    let to = from + numeral(n).len();
    lemma_numeral_digits(n);
    assert(s.subrange(from, to)[to - 1 - from] == s[to - 1]);
    if n < 10 {
        assert(decimal(s, from, from) == 0);
    } else {
        let head = numeral(n / 10);
        assert(numeral(n) == head + seq![digit_char((n % 10) as int)]);
        lemma_split_window(s, from, head, seq![digit_char((n % 10) as int)]);
        lemma_numeral_value(s, from, n / 10);
    }
}

/// A run of digits that is followed by no digit ends where it ends.
proof fn lemma_digits_end_of_run(s: Seq<char>, from: int, to: int)
    requires
        0 <= from <= to <= s.len(),
        forall|k: int| from <= k < to ==> is_digit(#[trigger] s[k]),
        to < s.len() ==> !is_digit(s[to]),
    ensures
        digits_end(s, from) == to,
    decreases to - from,
{
    if from < to {
        lemma_digits_end_of_run(s, from + 1, to);
    }
}

/// Where the rest of `s` from `pos` on holds the spelling of `tokens`,
/// scanning from `pos` yields `tokens`.
proof fn lemma_scan_spelling(s: Seq<char>, pos: int, tokens: Seq<Token>)
    requires
        0 <= pos <= s.len(),
        s.subrange(pos, s.len() as int) == spelling(tokens),
        unsigned(tokens),
    ensures
        tokens_from(s, pos) == Ok::<Seq<Token>, LexError>(tokens),
    decreases tokens.len(),
{
    if tokens.len() == 0 {
        assert(pos == s.len());
        assert(tokens =~= Seq::empty());
    } else {
        let first = tokens[0];
        let rest = tokens.drop_first();
        let word = token_spelling(first);
        let after = seq![' '] + spelling(rest);
        assert(spelling(tokens) == word + after);
        lemma_split_window(s, pos, word, after);
        let end = pos + word.len();
        lemma_split_window(s, end, seq![' '], spelling(rest));
        assert(s.subrange(end, end + 1)[0] == s[end]);
        assert(s[end] == ' ');
        assert forall|k: int| 0 <= k < word.len() implies s[pos + k] == word[k] by {
            assert(s.subrange(pos, end)[k] == s[pos + k]);
        }
        match first {
            Token::Number(n) => {
                lemma_numeral_digits(n as nat);
                assert(s[pos] == word[0]);
                assert forall|k: int| pos <= k < end implies is_digit(#[trigger] s[k]) by {
                    assert(s[k] == word[k - pos]);
                }
                lemma_digits_end_of_run(s, pos, end);
                lemma_numeral_value(s, pos, n as nat);
            },
            _ => {
                assert(s[pos] == word[0]);
            },
        }
        assert(skip_spaces(s, pos) == pos);
        assert(scan(s, pos).result == Ok::<Option<Token>, LexError>(Some(first)));
        assert(scan(s, pos).end == end);
        assert(skip_spaces(s, end) == skip_spaces(s, end + 1));
        assert(scan(s, end) == scan(s, end + 1));
        assert(unsigned(rest)) by {
            assert forall|k: int| 0 <= k < rest.len() implies (#[trigger] rest[k] matches
            Token::Number(n) ==> n >= 0) by {
                assert(rest[k] == tokens[k + 1]);
            }
        }
        lemma_scan_spelling(s, end + 1, rest);
        assert(tokens_from(s, end) == tokens_from(s, end + 1));
        assert(seq![first] + rest =~= tokens);
    }
}

/// Scanning the spelling of tokens gives the tokens back. So every sequence
/// of tokens without a negative literal is the scan of some input.
pub proof fn lemma_lex_spelling(tokens: Seq<Token>)
    requires
        unsigned(tokens),
    ensures
        lex(spelling(tokens)) == Ok::<Seq<Token>, LexError>(tokens),
{
    let s = spelling(tokens);
    assert(s.subrange(0, s.len() as int) =~= s);
    lemma_scan_spelling(s, 0, tokens);
}

} // verus!
