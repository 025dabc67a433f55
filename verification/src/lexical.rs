//! The lexical grammar, as functions from source text to tokens.
//!
//! A source is a sequence of characters. Blanks and line comments separate
//! tokens and leave no trace; every other character starts a token or is an
//! error. Each token is the longest one that starts at its position.

use crate::scanner::{LexicalError, TokenType, TokenView};
use vstd::prelude::*;

verus! {

pub open spec fn is_letter(c: char) -> bool {
    ('a' <= c && c <= 'z') || ('A' <= c && c <= 'Z')
}

pub open spec fn is_digit(c: char) -> bool {
    '0' <= c && c <= '9'
}

pub open spec fn is_word_char(c: char) -> bool {
    is_letter(c) || is_digit(c)
}

/// The two characters that count as white space.
pub open spec fn is_blank(c: char) -> bool {
    c == ' ' || c == '\n'
}

/// The number of characters of `s` at or after position `i`.
pub open spec fn left(s: Seq<char>, i: nat) -> nat {
    if i <= s.len() {
        (s.len() - i) as nat
    } else {
        0
    }
}

/// The length of the longest run of characters in `class` that starts at `i`.
pub open spec fn run_len(s: Seq<char>, i: nat, class: spec_fn(char) -> bool) -> nat
    decreases left(s, i),
{
    if i < s.len() && class(s[i as int]) {
        1 + run_len(s, i + 1, class)
    } else {
        0
    }
}

/// The class of the characters that continue a word.
pub open spec fn word_class() -> spec_fn(char) -> bool {
    |c: char| is_word_char(c)
}

pub open spec fn digit_class() -> spec_fn(char) -> bool {
    |c: char| is_digit(c)
}

pub open spec fn blank_class() -> spec_fn(char) -> bool {
    |c: char| is_blank(c)
}

/// The class of the characters that do not end a line.
pub open spec fn line_class() -> spec_fn(char) -> bool {
    |c: char| c != '\n'
}

pub open spec fn word_len(s: Seq<char>, i: nat) -> nat {
    run_len(s, i, word_class())
}

pub open spec fn digits_len(s: Seq<char>, i: nat) -> nat {
    run_len(s, i, digit_class())
}

pub open spec fn blank_len(s: Seq<char>, i: nat) -> nat {
    run_len(s, i, blank_class())
}

/// The number of characters from `i` up to the end of the line, the newline
/// left out.
pub open spec fn line_len(s: Seq<char>, i: nat) -> nat {
    run_len(s, i, line_class())
}

/// The length of what is skipped at `i`: blanks, and comments that run from
/// a `#` to the end of the line.
pub open spec fn trivia_len(s: Seq<char>, i: nat) -> nat
    decreases left(s, i),
{
    if i >= s.len() {
        0
    } else if is_blank(s[i as int]) {
        1 + trivia_len(s, i + 1)
    } else if s[i as int] == '#' {
        let n = line_len(s, i + 1);
        1 + n + trivia_len(s, i + 1 + n)
    } else {
        0
    }
}

/// The length of the number literal whose first digit is at `i`: digits,
/// then at most one decimal point with the digits that follow it.
pub open spec fn number_len(s: Seq<char>, i: nat) -> nat {
    let whole = 1 + digits_len(s, i + 1);
    if i + whole < s.len() && s[i + whole as int] == '.' {
        whole + 1 + digits_len(s, i + whole + 1)
    } else {
        whole
    }
}

/// The keyword spelled by `word`, if it is one.
pub open spec fn keyword_of(word: Seq<char>) -> Option<TokenType> {
    if word == seq!['d', 'e', 'f'] {
        Some(TokenType::TokDef)
    } else if word == seq!['e', 'x', 't', 'e', 'r', 'n'] {
        Some(TokenType::TokExtern)
    } else if word == seq!['i', 'f'] {
        Some(TokenType::TokIf)
    } else if word == seq!['e', 'l', 's', 'e'] {
        Some(TokenType::TokElse)
    } else if word == seq!['r', 'e', 't', 'u', 'r', 'n'] {
        Some(TokenType::TokReturn)
    } else {
        None
    }
}

/// The punctuation or operator that starts at `i`, with its length.
pub open spec fn symbol_at(s: Seq<char>, i: nat) -> Option<(TokenType, nat)> {
    let c = s[i as int];
    let widened = i + 1 < s.len() && s[i + 1 as int] == '=';
    if c == '(' {
        Some((TokenType::TokLpar, 1))
    } else if c == ')' {
        Some((TokenType::TokRpar, 1))
    } else if c == '{' {
        Some((TokenType::TokLbrak, 1))
    } else if c == '}' {
        Some((TokenType::TokRbrak, 1))
    } else if c == '<' {
        if widened {
            Some((TokenType::TokLte, 2))
        } else {
            Some((TokenType::TokLt, 1))
        }
    } else if c == '>' {
        if widened {
            Some((TokenType::TokGte, 2))
        } else {
            Some((TokenType::TokGt, 1))
        }
    } else if c == '+' {
        Some((TokenType::TokAdd, 1))
    } else if c == '-' {
        Some((TokenType::TokSub, 1))
    } else if c == '*' {
        Some((TokenType::TokMul, 1))
    } else if c == '/' {
        Some((TokenType::TokDiv, 1))
    } else if c == '%' {
        Some((TokenType::TokMod, 1))
    } else if c == ',' {
        Some((TokenType::TokComma, 1))
    } else if c == '=' {
        Some((TokenType::TokEquals, 1))
    } else {
        None
    }
}

/// The token that a word stands for: a keyword, or else an identifier.
pub open spec fn word_token(word: Seq<char>) -> TokenView {
    match keyword_of(word) {
        Some(kind) => TokenView::plain(kind),
        None => TokenView::name(word),
    }
}

/// The token that starts at `i`, with its length, where `i` is inside the
/// source and not at trivia; the error where no token starts there.
pub open spec fn token_at(s: Seq<char>, i: nat) -> Result<(TokenView, nat), LexicalError> {
    let c = s[i as int];
    if is_letter(c) {
        let n = 1 + word_len(s, i + 1);
        Ok((word_token(s.subrange(i as int, i + n as int)), n))
    } else if is_digit(c) {
        let n = number_len(s, i);
        Ok((TokenView::literal(s.subrange(i as int, i + n as int)), n))
    } else {
        match symbol_at(s, i) {
            Some((kind, n)) => Ok((TokenView::plain(kind), n)),
            None => Err(LexicalError { character: c, position: i as usize }),
        }
    }
}

/// The first token at or after `i` with the position just behind it, `None`
/// where only trivia is left.
pub open spec fn next_token(s: Seq<char>, i: nat) -> Result<Option<(TokenView, nat)>, LexicalError> {
    let start = i + trivia_len(s, i);
    if start >= s.len() {
        Ok(None)
    } else {
        match token_at(s, start) {
            Ok((token, n)) => Ok(Some((token, start + n))),
            Err(e) => Err(e),
        }
    }
}

/// The tokens of `s` from position `i` on, closed by the end-of-input token.
pub open spec fn tokens_from(s: Seq<char>, i: nat) -> Result<Seq<TokenView>, LexicalError>
    decreases left(s, i),
{
    match next_token(s, i) {
        Ok(None) => Ok(seq![TokenView::plain(TokenType::TokEof)]),
        Ok(Some((token, end))) => match tokens_from(s, end) {
            Ok(rest) => Ok(seq![token] + rest),
            Err(e) => Err(e),
        },
        Err(e) => Err(e),
    }
}

/// The tokens of a whole source.
pub open spec fn tokens_of(s: Seq<char>) -> Result<Seq<TokenView>, LexicalError> {
    tokens_from(s, 0)
}

/// A run of `class` stops inside the source.
pub proof fn lemma_run_in_source(s: Seq<char>, i: nat, class: spec_fn(char) -> bool)
    requires
        i <= s.len(),
    ensures
        i + run_len(s, i, class) <= s.len(),
    decreases left(s, i),
{
    if i < s.len() && class(s[i as int]) {
        lemma_run_in_source(s, i + 1, class);
    }
}

/// A run is stopped by the end of the source or by a character outside
/// `class`.
pub proof fn lemma_run_stops(s: Seq<char>, i: nat, class: spec_fn(char) -> bool)
    ensures
        i + run_len(s, i, class) < s.len() ==> !class(s[i + run_len(s, i, class) as int]),
    decreases left(s, i),
{
    if i < s.len() && class(s[i as int]) {
        lemma_run_stops(s, i + 1, class);
    }
}

/// Skipping trivia may start with the blanks.
pub proof fn lemma_trivia_after_blanks(s: Seq<char>, i: nat)
    ensures
        trivia_len(s, i) == blank_len(s, i) + trivia_len(s, i + blank_len(s, i)),
    decreases left(s, i),
{
    if i < s.len() && is_blank(s[i as int]) {
        lemma_trivia_after_blanks(s, i + 1);
    }
}

/// A token lies inside the source and is not empty.
pub proof fn lemma_token_in_source(s: Seq<char>, i: nat)
    requires
        i < s.len(),
    ensures
        token_at(s, i) matches Ok((_, n)) ==> 1 <= n && i + n <= s.len(),
{
    lemma_run_in_source(s, i + 1, word_class());
    lemma_run_in_source(s, i + 1, digit_class());
    let whole = 1 + digits_len(s, i + 1);
    if i + whole < s.len() {
        lemma_run_in_source(s, i + whole + 1, digit_class());
    }
}

} // verus!
