//! Spaces between tokens carry no meaning.
//!
//! [`lemma_space_between_tokens`] shows that a space put anywhere but
//! between two digits of a literal leaves the tokens of an input as they
//! are.

use vstd::prelude::*;
use crate::calc::outcome;
use crate::lexer::{
    decimal, digits_end, is_digit, lemma_digits_end_bounds, lemma_scan_advances,
    lemma_skip_spaces_bounds, lex, scan, skip_spaces, tokens_from, LexError,
};
use crate::token::Token;

verus! {

/// Whether index `i` of `s` lies between two digits.
pub open spec fn splits_literal(s: Seq<char>, i: int) -> bool {
    0 < i < s.len() && is_digit(s[i - 1]) && is_digit(s[i])
}

/// The error `e` as it reads once a character has been put in at index `i`:
/// a position at or after `i` moves up by one.
pub open spec fn shifted(e: LexError, i: int) -> LexError {
    match e {
        LexError::UnrecognizedChar { character, position } => LexError::UnrecognizedChar {
            character,
            position: if position >= i {
                (position + 1) as usize
            } else {
                position
            },
        },
        LexError::Overflow { position } => LexError::Overflow {
            position: if position >= i {
                (position + 1) as usize
            } else {
                position
            },
        },
    }
}

/// A cursor `p` of the input and the cursor `q` of the input with a space
/// put in at `i` stand at the same place: before the new space both are the
/// same index, after it `q` is one more.
spec fn aligned(i: int, p: int, q: int) -> bool {
    (p <= i && q == p) || (p >= i && q == p + 1)
}

proof fn lemma_skip_after(s: Seq<char>, i: int, p: int)
    requires
        0 <= i <= p <= s.len(),
    ensures
        skip_spaces(s.insert(i, ' '), p + 1) == skip_spaces(s, p) + 1,
    decreases s.len() - p,
{
    if p < s.len() && s[p] == ' ' {
        lemma_skip_after(s, i, p + 1);
    }
}

proof fn lemma_skip_before(s: Seq<char>, i: int, p: int)
    requires
        0 <= p <= i <= s.len(),
    ensures
        skip_spaces(s.insert(i, ' '), p) == if skip_spaces(s, p) < i {
            skip_spaces(s, p)
        } else {
            skip_spaces(s, p) + 1
        },
    decreases i - p,
{
    let t = s.insert(i, ' ');
    lemma_skip_spaces_bounds(s, p);
    if p == i {
        assert(t[i] == ' ');
        assert(skip_spaces(t, i) == skip_spaces(t, i + 1));
        lemma_skip_after(s, i, i);
    } else {
        assert(t[p] == s[p]);
        if s[p] == ' ' {
            lemma_skip_before(s, i, p + 1);
        }
    }
}

proof fn lemma_digits_after(s: Seq<char>, i: int, p: int)
    requires
        0 <= i <= p <= s.len(),
    ensures
        digits_end(s.insert(i, ' '), p + 1) == digits_end(s, p) + 1,
    decreases s.len() - p,
{
    if p < s.len() && is_digit(s[p]) {
        lemma_digits_after(s, i, p + 1);
    }
}

proof fn lemma_digits_before(s: Seq<char>, i: int, p: int)
    requires
        0 <= p < i <= s.len(),
        is_digit(s[p]),
        !splits_literal(s, i),
    ensures
        digits_end(s.insert(i, ' '), p) == digits_end(s, p),
        p < digits_end(s, p) <= i,
    decreases i - p,
{
    let t = s.insert(i, ' ');
    assert(t[p] == s[p]);
    assert(digits_end(s, p) == digits_end(s, p + 1));
    assert(digits_end(t, p) == digits_end(t, p + 1));
    if p + 1 < i {
        assert(t[p + 1] == s[p + 1]);
        if is_digit(s[p + 1]) {
            lemma_digits_before(s, i, p + 1);
        } else {
            assert(digits_end(s, p + 1) == p + 1);
            assert(digits_end(t, p + 1) == p + 1);
        }
    } else {
        assert(t[i] == ' ');
        assert(digits_end(t, i) == i);
        assert(digits_end(s, i) == i);
    }
}

proof fn lemma_decimal_before(s: Seq<char>, i: int, from: int, to: int)
    requires
        0 <= from <= to <= i <= s.len(),
    ensures
        decimal(s.insert(i, ' '), from, to) == decimal(s, from, to),
    decreases to - from,
{
    if from < to {
        lemma_decimal_before(s, i, from, to - 1);
    }
}

proof fn lemma_decimal_after(s: Seq<char>, i: int, from: int, to: int)
    requires
        0 <= i <= from <= to <= s.len(),
    ensures
        decimal(s.insert(i, ' '), from + 1, to + 1) == decimal(s, from, to),
    decreases to - from,
{
    if from < to {
        lemma_decimal_after(s, i, from, to - 1);
    }
}

/// From cursors at the same place, one scanning step finds the same token
/// and leaves the cursors at the same place.
proof fn lemma_scan_aligned(s: Seq<char>, i: int, p: int, q: int)
    requires
        0 <= i <= s.len() < usize::MAX,
        0 <= p <= s.len(),
        aligned(i, p, q),
        !splits_literal(s, i),
    ensures
        scan(s.insert(i, ' '), q).result == match scan(s, p).result {
            Ok(found) => Ok::<Option<Token>, LexError>(found),
            Err(e) => Err::<Option<Token>, LexError>(shifted(e, i)),
        },
        aligned(i, scan(s, p).end, scan(s.insert(i, ' '), q).end),
        p <= scan(s, p).end <= s.len(),
        scan(s, p).result matches Ok(Some(_)) ==> p < scan(s, p).end,
{
    let t = s.insert(i, ' ');
    lemma_scan_advances(s, p);
    lemma_skip_spaces_bounds(s, p);
    let start = skip_spaces(s, p);
    let begin = skip_spaces(t, q);
    if p <= i && q == p {
        lemma_skip_before(s, i, p);
    } else {
        lemma_skip_after(s, i, p);
    }
    if start < s.len() {
        assert(t[begin] == s[start]);
        if is_digit(s[start]) {
            lemma_digits_end_bounds(s, start);
            if start < i {
                lemma_digits_before(s, i, start);
                lemma_decimal_before(s, i, start, digits_end(s, start));
            } else {
                lemma_digits_after(s, i, start);
                lemma_decimal_after(s, i, start, digits_end(s, start));
            }
        }
    }
}

proof fn lemma_tokens_aligned(s: Seq<char>, i: int, p: int, q: int)
    requires
        0 <= i <= s.len() < usize::MAX,
        0 <= p <= s.len(),
        aligned(i, p, q),
        !splits_literal(s, i),
    ensures
        tokens_from(s.insert(i, ' '), q) == match tokens_from(s, p) {
            Ok(tokens) => Ok::<Seq<Token>, LexError>(tokens),
            Err(e) => Err::<Seq<Token>, LexError>(shifted(e, i)),
        },
    decreases s.len() - p,
{
    lemma_scan_aligned(s, i, p, q);
    if let Ok(Some(_)) = scan(s, p).result {
        lemma_tokens_aligned(s, i, scan(s, p).end, scan(s.insert(i, ' '), q).end);
    }
}

/// A space put into an input anywhere but between two digits changes none
/// of its tokens, and so not its value. If the input has a lexical error,
/// the error stays the same but for its position, which moves with the
/// character it names. The input is taken to be short enough for every
/// position in it to be a `usize`.
pub proof fn lemma_space_between_tokens(s: Seq<char>, i: int)
    requires
        0 <= i <= s.len() < usize::MAX,
        !splits_literal(s, i),
    ensures
        lex(s.insert(i, ' ')) == match lex(s) {
            Ok(tokens) => Ok::<Seq<Token>, LexError>(tokens),
            Err(e) => Err::<Seq<Token>, LexError>(shifted(e, i)),
        },
        lex(s) is Ok ==> outcome(s.insert(i, ' ')) == outcome(s),
{
    lemma_tokens_aligned(s, i, 0, if i == 0 { 1 } else { 0 });
    if i == 0 {
        let t = s.insert(0, ' ');
        assert(skip_spaces(t, 0) == skip_spaces(t, 1));
        assert(scan(t, 0) == scan(t, 1));
        lemma_scan_advances(t, 0);
        lemma_scan_advances(t, 1);
    }
}

} // verus!
