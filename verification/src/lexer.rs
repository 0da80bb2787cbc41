//! Lexical scanning: characters to tokens.
//!
//! The scanner is modelled as a cursor into a fixed sequence of characters.
//! Everything it does is stated by [`scan`], a function from the input and a
//! cursor position to the token found there and the position after it.

use vstd::prelude::*;
use crate::token::{unsigned, Token};

verus! {

/// Why scanning stopped.
#[derive(Debug, Clone, Copy, PartialEq, Eq, Structural)]
pub enum LexError {
    /// A character that is no digit, operator, parenthesis or space.
    UnrecognizedChar { character: char, position: usize },
    /// A literal whose value does not fit in an `i32`; `position` is the
    /// index of its first digit.
    Overflow { position: usize },
}

/// The abstract state of a [`Lexer`]: the whole input and the index of the
/// next character to read.
pub struct LexerView {
    pub input: Seq<char>,
    pub pos: int,
}

/// The outcome of one scanning step: what was found, and where the cursor
/// rests afterwards.
pub struct Scan {
    pub result: Result<Option<Token>, LexError>,
    pub end: int,
}

/// The decimal digits `0` to `9`; no other character counts as a digit.
pub open spec fn is_digit(c: char) -> bool {
    '0' <= c <= '9'
}

/// The number that a digit stands for.
pub open spec fn digit_value(c: char) -> int {
    c as int - '0' as int
}

/// The single-character tokens.
pub open spec fn punctuation(c: char) -> Option<Token> {
    if c == '+' {
        Some(Token::Plus)
    } else if c == '-' {
        Some(Token::Minus)
    } else if c == '*' {
        Some(Token::Multiply)
    } else if c == '/' {
        Some(Token::Divide)
    } else if c == '(' {
        Some(Token::LeftParen)
    } else if c == ')' {
        Some(Token::RightParen)
    } else {
        None
    }
}

/// The first index at or after `i` that holds no space (the length of `s` if
/// only spaces follow). Only `' '` is skipped: tabs and newlines are not
/// whitespace here.
pub open spec fn skip_spaces(s: Seq<char>, i: int) -> int
    decreases s.len() - i,
{
    if 0 <= i < s.len() && s[i] == ' ' {
        skip_spaces(s, i + 1)
    } else {
        i
    }
}

/// The end of the maximal run of digits that starts at `i`.
pub open spec fn digits_end(s: Seq<char>, i: int) -> int
    decreases s.len() - i,
{
    if 0 <= i < s.len() && is_digit(s[i]) {
        digits_end(s, i + 1)
    } else {
        i
    }
}

/// The number written in base ten by the digits `s[from..to]`.
pub open spec fn decimal(s: Seq<char>, from: int, to: int) -> int
    decreases to - from,
{
    if from >= to {
        0
    } else {
        decimal(s, from, to - 1) * 10 + digit_value(s[to - 1])
    }
}

/// One scanning step from position `pos` of `s`.
///
/// Spaces are skipped. At the end of the input the step yields no token. A
/// digit starts a literal that extends over the whole run of digits; one of
/// `+ - * / ( )` is a token by itself; any other character is an error. After
/// an error the cursor rests on the offending character, or on the first
/// digit of a literal that is too large.
pub open spec fn scan(s: Seq<char>, pos: int) -> Scan {
    let start = skip_spaces(s, pos);
    if !(0 <= start < s.len()) {
        Scan { result: Ok(None), end: start }
    } else if is_digit(s[start]) {
        let end = digits_end(s, start);
        let value = decimal(s, start, end);
        if value <= i32::MAX {
            Scan { result: Ok(Some(Token::Number(value as i32))), end }
        } else {
            Scan { result: Err(LexError::Overflow { position: start as usize }), end: start }
        }
    } else {
        match punctuation(s[start]) {
            Some(token) => Scan { result: Ok(Some(token)), end: start + 1 },
            None => Scan {
                result: Err(
                    LexError::UnrecognizedChar { character: s[start], position: start as usize },
                ),
                end: start,
            },
        }
    }
}

/// Skipping spaces moves forward and stays within the input.
pub proof fn lemma_skip_spaces_bounds(s: Seq<char>, i: int)
    requires
        0 <= i <= s.len(),
    ensures
        i <= skip_spaces(s, i) <= s.len(),
    decreases s.len() - i,
{
    if i < s.len() && s[i] == ' ' {
        lemma_skip_spaces_bounds(s, i + 1);
    }
}

/// A run of digits ends within the input, and after its first digit.
pub proof fn lemma_digits_end_bounds(s: Seq<char>, i: int)
    requires
        0 <= i <= s.len(),
    ensures
        i <= digits_end(s, i) <= s.len(),
        i < s.len() && is_digit(s[i]) ==> i < digits_end(s, i),
    decreases s.len() - i,
{
    if i < s.len() && is_digit(s[i]) {
        lemma_digits_end_bounds(s, i + 1);
    }
}

/// A literal's value only grows as more digits are read.
pub proof fn lemma_decimal_grows(s: Seq<char>, from: int, mid: int, to: int)
    requires
        0 <= from <= mid <= to <= s.len(),
        forall|k: int| from <= k < to ==> is_digit(#[trigger] s[k]),
    ensures
        0 <= decimal(s, from, mid) <= decimal(s, from, to),
    decreases to - mid,
{
    lemma_decimal_nonnegative(s, from, mid);
    if mid < to {
        lemma_decimal_grows(s, from, mid, to - 1);
        assert(is_digit(s[to - 1]));
    }
}

proof fn lemma_decimal_nonnegative(s: Seq<char>, from: int, to: int)
    requires
        0 <= from <= to <= s.len(),
        forall|k: int| from <= k < to ==> is_digit(#[trigger] s[k]),
    ensures
        0 <= decimal(s, from, to),
    decreases to - from,
{
    if from < to {
        lemma_decimal_nonnegative(s, from, to - 1);
        assert(is_digit(s[to - 1]));
    }
}

/// Every character before the end of a digit run is a digit.
pub proof fn lemma_digits_run(s: Seq<char>, i: int)
    requires
        0 <= i <= s.len(),
    ensures
        forall|k: int| i <= k < digits_end(s, i) ==> is_digit(#[trigger] s[k]),
    decreases s.len() - i,
{
    if i < s.len() && is_digit(s[i]) {
        lemma_digits_run(s, i + 1);
    }
}

/// A scanning step never moves the cursor back or past the end, and a step
/// that yields a token moves it forward.
pub proof fn lemma_scan_advances(s: Seq<char>, pos: int)
    requires
        0 <= pos <= s.len(),
    ensures
        pos <= scan(s, pos).end <= s.len(),
        scan(s, pos).result matches Ok(Some(_)) ==> pos < scan(s, pos).end,
{
    lemma_skip_spaces_bounds(s, pos);
    let start = skip_spaces(s, pos);
    if start < s.len() {
        lemma_digits_end_bounds(s, start);
    }
}

/// A scanner over a fixed input, with a cursor that only moves forward.
pub struct Lexer {
    chars: Vec<char>,
    pos: usize,
}

impl View for Lexer {
    type V = LexerView;

    closed spec fn view(&self) -> LexerView {
        LexerView { input: self.chars@, pos: self.pos as int }
    }
}

fn is_digit_char(c: char) -> (b: bool)
    ensures
        b == is_digit(c),
{
    c >= '0' && c <= '9'
}

fn punctuation_token(c: char) -> (t: Option<Token>)
    ensures
        t == punctuation(c),
{
    if c == '+' {
        Some(Token::Plus)
    } else if c == '-' {
        Some(Token::Minus)
    } else if c == '*' {
        Some(Token::Multiply)
    } else if c == '/' {
        Some(Token::Divide)
    } else if c == '(' {
        Some(Token::LeftParen)
    } else if c == ')' {
        Some(Token::RightParen)
    } else {
        None
    }
}

impl Lexer {
    #[verifier::type_invariant]
    spec fn cursor_in_bounds(&self) -> bool {
        self.pos <= self.chars.len()
    }

    /// A scanner at the start of `input`.
    pub fn new(input: &str) -> (lexer: Lexer)
        ensures
            lexer@.input == input@,
            lexer@.pos == 0,
    {
        let mut chars: Vec<char> = Vec::new();
        for c in it: input.chars()
            invariant
                chars@ == it.seq().take(it.index() as int),
                it.seq() == input@,
        {
            chars.push(c);
        }
        Lexer { chars, pos: 0 }
    }

    /// Reads the next token, `Ok(None)` at the end of the input.
    pub fn next_token(&mut self) -> (result: Result<Option<Token>, LexError>)
        ensures
            result == scan(old(self)@.input, old(self)@.pos).result,
            final(self)@.pos == scan(old(self)@.input, old(self)@.pos).end,
            final(self)@.input == old(self)@.input,
            0 <= old(self)@.pos <= final(self)@.pos <= final(self)@.input.len(),
    {
        proof {
            use_type_invariant(&*self);
            lemma_scan_advances(self.chars@, self.pos as int);
        }
        while self.pos < self.chars.len() && self.chars[self.pos] == ' '
            invariant
                self.pos <= self.chars.len(),
                self.chars@ == old(self).chars@,
                skip_spaces(self.chars@, self.pos as int) == skip_spaces(
                    old(self).chars@,
                    old(self).pos as int,
                ),
            decreases self.chars.len() - self.pos,
        {
            self.pos += 1;
        }
        if self.pos >= self.chars.len() {
            return Ok(None);
        }
        let c = self.chars[self.pos];
        if is_digit_char(c) {
            match self.number() {
                Ok(token) => Ok(Some(token)),
                Err(e) => Err(e),
            }
        } else {
            match punctuation_token(c) {
                Some(token) => {
                    self.pos += 1;
                    Ok(Some(token))
                },
                None => Err(LexError::UnrecognizedChar { character: c, position: self.pos }),
            }
        }
    }

    /// Reads the literal that starts at the cursor, which must rest on a
    /// digit. The literal extends over the whole run of digits. If its value
    /// does not fit in an `i32` the cursor stays where it was.
    pub fn number(&mut self) -> (result: Result<Token, LexError>)
        requires
            0 <= old(self)@.pos < old(self)@.input.len(),
            is_digit(old(self)@.input[old(self)@.pos]),
        ensures
            final(self)@.input == old(self)@.input,
            old(self)@.pos <= final(self)@.pos <= final(self)@.input.len(),
            ({
                let s = old(self)@.input;
                let start = old(self)@.pos;
                let end = digits_end(s, start);
                if decimal(s, start, end) <= i32::MAX {
                    &&& result == Ok::<Token, LexError>(
                        Token::Number(decimal(s, start, end) as i32),
                    )
                    &&& final(self)@.pos == end
                } else {
                    &&& result == Err::<Token, LexError>(
                        LexError::Overflow { position: start as usize },
                    )
                    &&& final(self)@.pos == start
                }
            }),
    {
        let start: usize = self.pos;
        let mut i: usize = self.pos;
        let mut value: i32 = 0;
        proof {
            lemma_digits_end_bounds(self.chars@, start as int);
            lemma_digits_run(self.chars@, start as int);
        }
        while i < self.chars.len() && is_digit_char(self.chars[i])
            invariant
                *self == *old(self),
                start == self.pos,
                start <= i <= digits_end(self.chars@, start as int) <= self.chars.len(),
                digits_end(self.chars@, i as int) == digits_end(self.chars@, start as int),
                forall|k: int|
                    start <= k < digits_end(self.chars@, start as int) ==> is_digit(
                        #[trigger] self.chars@[k],
                    ),
                value == decimal(self.chars@, start as int, i as int),
                0 <= value,
            decreases self.chars.len() - i,
        {
            proof {
                lemma_digits_end_bounds(self.chars@, i as int);
            }
            let d: i64 = (self.chars[i] as u32 - '0' as u32) as i64;
            let next: i64 = value as i64 * 10 + d;
            if next > i32::MAX as i64 {
                proof {
                    lemma_decimal_grows(
                        self.chars@,
                        start as int,
                        i + 1,
                        digits_end(self.chars@, start as int),
                    );
                }
                return Err(LexError::Overflow { position: start });
            }
            value = next as i32;
            i += 1;
        }
        self.pos = i;
        Ok(Token::Number(value))
    }
}

/// The tokens of `s` from position `pos` on, or the first error met.
pub open spec fn tokens_from(s: Seq<char>, pos: int) -> Result<Seq<Token>, LexError>
    decreases s.len() - pos,
    when 0 <= pos <= s.len()
    via tokens_from_terminates
{
    let step = scan(s, pos);
    match step.result {
        Err(e) => Err(e),
        Ok(None) => Ok(Seq::empty()),
        Ok(Some(token)) => match tokens_from(s, step.end) {
            Err(e) => Err(e),
            Ok(rest) => Ok(seq![token] + rest),
        },
    }
}

#[via_fn]
proof fn tokens_from_terminates(s: Seq<char>, pos: int) {
    lemma_scan_advances(s, pos);
}

/// The tokens of a whole input.
pub open spec fn lex(s: Seq<char>) -> Result<Seq<Token>, LexError> {
    tokens_from(s, 0)
}

proof fn lemma_tokens_unsigned(s: Seq<char>, pos: int)
    requires
        0 <= pos <= s.len(),
    ensures
        tokens_from(s, pos) matches Ok(tokens) ==> unsigned(tokens),
    decreases s.len() - pos,
{
    lemma_scan_advances(s, pos);
    let step = scan(s, pos);
    if let Ok(Some(token)) = step.result {
        lemma_tokens_unsigned(s, step.end);
        if let Ok(rest) = tokens_from(s, step.end) {
            let start = skip_spaces(s, pos);
            lemma_skip_spaces_bounds(s, pos);
            if is_digit(s[start]) {
                lemma_digits_end_bounds(s, start);
                lemma_digits_run(s, start);
                lemma_decimal_grows(s, start, start, digits_end(s, start));
            }
            let tokens = seq![token] + rest;
            assert forall|k: int| 0 <= k < tokens.len() implies (#[trigger] tokens[k] matches
            Token::Number(n) ==> n >= 0) by {
                if k > 0 {
                    assert(tokens[k] == rest[k - 1]);
                }
            }
        }
    }
}

/// No literal that scanning yields is negative: a `-` is always a token of
/// its own, never the sign of a literal.
pub proof fn lemma_lex_unsigned(s: Seq<char>)
    ensures
        lex(s) matches Ok(tokens) ==> unsigned(tokens),
{
    lemma_tokens_unsigned(s, 0);
}

/// Scans the whole of `input`. The first error ends the scan, and no token
/// is returned with it.
pub fn tokenize(input: &str) -> (result: Result<Vec<Token>, LexError>)
    ensures
        match lex(input@) {
            Ok(tokens) => result is Ok && result->Ok_0@ == tokens,
            Err(e) => result == Err::<Vec<Token>, LexError>(e),
        },
{
    let mut lexer = Lexer::new(input);
    let mut tokens: Vec<Token> = Vec::new();
    loop
        invariant
            lexer@.input == input@,
            0 <= lexer@.pos <= input@.len(),
            match tokens_from(input@, lexer@.pos) {
                Ok(rest) => lex(input@) == Ok::<Seq<Token>, LexError>(tokens@ + rest),
                Err(e) => lex(input@) == Err::<Seq<Token>, LexError>(e),
            },
        decreases input@.len() - lexer@.pos,
    {
        let ghost before = lexer@.pos;
        let ghost sofar = tokens@;
        match lexer.next_token() {
            Err(e) => {
                return Err(e);
            },
            Ok(None) => {
                assert(tokens@ + Seq::<Token>::empty() == tokens@);
                return Ok(tokens);
            },
            Ok(Some(token)) => {
                proof {
                    lemma_scan_advances(input@, before);
                }
                tokens.push(token);
                proof {
                    if let Ok(rest) = tokens_from(input@, lexer@.pos) {
                        assert(sofar + (seq![token] + rest) == tokens@ + rest);
                    }
                }
            },
        }
    }
}

} // verus!
