//! How tokens are written, and that scanning reads back what was written.
//!
//! A source can be seen as tokens laid out one after the other, with gaps of
//! blanks and comments before, between and behind them. Whatever the gaps,
//! scanning such a source gives the tokens that were laid out.

use crate::lexical::{
    digit_class, digits_len, is_blank, is_digit, is_letter, is_word_char, keyword_of, left,
    line_class, line_len, next_token, number_len, run_len, token_at, tokens_from, tokens_of,
    trivia_len, word_class, word_token,
};
use crate::grammar::remaining;
use crate::scanner::{lemma_name_shape, lemma_names_differ, LexicalError, TokenType, TokenView};
use vstd::prelude::*;

verus! {

/// The characters with which a token is written. The end-of-input token is
/// not written at all.
pub open spec fn spelling(token: TokenView) -> Seq<char> {
    match token.token_type {
        TokenType::TokEof => Seq::empty(),
        TokenType::TokDef => seq!['d', 'e', 'f'],
        TokenType::TokExtern => seq!['e', 'x', 't', 'e', 'r', 'n'],
        TokenType::TokIf => seq!['i', 'f'],
        TokenType::TokElse => seq!['e', 'l', 's', 'e'],
        TokenType::TokReturn => seq!['r', 'e', 't', 'u', 'r', 'n'],
        TokenType::TokIdentifier => token.identifier,
        TokenType::TokNumber => token.number,
        TokenType::TokRpar => seq![')'],
        TokenType::TokLpar => seq!['('],
        TokenType::TokRbrak => seq!['}'],
        TokenType::TokLbrak => seq!['{'],
        TokenType::TokComma => seq![','],
        TokenType::TokEquals => seq!['='],
        TokenType::TokLt => seq!['<'],
        TokenType::TokGt => seq!['>'],
        TokenType::TokLte => seq!['<', '='],
        TokenType::TokGte => seq!['>', '='],
        TokenType::TokAdd => seq!['+'],
        TokenType::TokSub => seq!['-'],
        TokenType::TokMul => seq!['*'],
        TokenType::TokDiv => seq!['/'],
        TokenType::TokMod => seq!['%'],
    }
}

/// A word: a letter followed by letters and digits.
pub open spec fn is_word(text: Seq<char>) -> bool {
    &&& text.len() > 0
    &&& is_letter(text[0])
    &&& forall|i: int| 0 <= i < text.len() ==> is_word_char(#[trigger] text[i])
}

/// A number literal: digits, then at most one decimal point with the digits
/// that follow it.
pub open spec fn is_number(text: Seq<char>) -> bool {
    &&& text.len() > 0
    &&& is_digit(text[0])
    &&& number_len(text, 0) == text.len()
}

/// Tells whether `token` can stand in a source: its payload is that of its
/// kind, a name is a word and no keyword, a literal is a number. The
/// end-of-input token stands in no source.
pub open spec fn writable(token: TokenView) -> bool {
    match token.token_type {
        TokenType::TokEof => false,
        TokenType::TokIdentifier => {
            &&& is_word(token.identifier)
            &&& keyword_of(token.identifier) is None
            &&& token.number.len() == 0
        },
        TokenType::TokNumber => is_number(token.number) && token.identifier.len() == 0,
        _ => token.identifier.len() == 0 && token.number.len() == 0,
    }
}

/// Tells whether `token` ends where its spelling ends when `follow` is the
/// character behind it.
pub open spec fn ends_before(token: TokenView, follow: char) -> bool {
    match token.token_type {
        TokenType::TokIdentifier | TokenType::TokDef | TokenType::TokExtern | TokenType::TokIf
        | TokenType::TokElse | TokenType::TokReturn => !is_word_char(follow),
        TokenType::TokNumber => !is_digit(follow) && follow != '.',
        TokenType::TokLt | TokenType::TokGt => follow != '=',
        _ => true,
    }
}

/// Tells whether `gap`, from position `i` on, is made of blanks and of
/// comments that are each closed by a newline.
pub open spec fn is_gap_from(gap: Seq<char>, i: nat) -> bool
    decreases left(gap, i),
{
    if i >= gap.len() {
        true
    } else if is_blank(gap[i as int]) {
        is_gap_from(gap, i + 1)
    } else if gap[i as int] == '#' {
        let end = i + 1 + line_len(gap, i + 1);
        end < gap.len() && is_gap_from(gap, end + 1)
    } else {
        false
    }
}

/// A gap: what may stand in front of a token.
pub open spec fn is_gap(gap: Seq<char>) -> bool {
    is_gap_from(gap, 0)
}

/// What may stand behind the last token: a gap, or a gap and a comment that
/// runs to the end of the source.
pub open spec fn is_tail(gap: Seq<char>) -> bool {
    trivia_len(gap, 0) == gap.len()
}

/// The source in which `tokens`, from the one at `first` on, are laid out
/// with `gaps[k]` in front of the token at `k` and the last of `gaps` behind
/// them all.
pub open spec fn written_from(tokens: Seq<TokenView>, gaps: Seq<Seq<char>>, first: nat) -> Seq<
    char,
>
    decreases remaining(tokens, first),
{
    if first >= tokens.len() {
        gaps[tokens.len() as int]
    } else {
        gaps[first as int] + spelling(tokens[first as int]) + written_from(tokens, gaps, first + 1)
    }
}

/// The source in which `tokens` are laid out between `gaps`.
pub open spec fn written(tokens: Seq<TokenView>, gaps: Seq<Seq<char>>) -> Seq<char> {
    written_from(tokens, gaps, 0)
}

/// Tells whether `gaps` can lay out `tokens`: there is a gap in front of
/// each token and a tail behind the last, and where a gap between two tokens
/// is empty, the first of them ends before the second begins.
pub open spec fn lays_out(tokens: Seq<TokenView>, gaps: Seq<Seq<char>>) -> bool {
    &&& gaps.len() == tokens.len() + 1
    &&& forall|k: int| 0 <= k < tokens.len() ==> writable(#[trigger] tokens[k])
    &&& forall|k: int| 0 <= k < tokens.len() ==> is_gap(#[trigger] gaps[k])
    &&& is_tail(gaps[tokens.len() as int])
    &&& forall|k: int|
        0 < k < tokens.len() && (#[trigger] gaps[k]).len() == 0 ==> ends_before(
            tokens[k - 1],
            spelling(tokens[k])[0],
        )
}

/// A run does not depend on what stands in front of its start.
pub proof fn lemma_run_shift(front: Seq<char>, s: Seq<char>, i: nat, class: spec_fn(char) -> bool)
    ensures
        run_len(front + s, front.len() + i, class) == run_len(s, i, class),
    decreases left(s, i),
{
    if i < s.len() {
        assert((front + s)[front.len() + i as int] == s[i as int]);
        if class(s[i as int]) {
            lemma_run_shift(front, s, i + 1, class);
        }
    }
}

/// A run that starts in the first of two texts either stops there or goes on
/// into the second.
pub proof fn lemma_run_across(
    first: Seq<char>,
    second: Seq<char>,
    i: nat,
    class: spec_fn(char) -> bool,
)
    requires
        i <= first.len(),
    ensures
        run_len(first + second, i, class) == if i + run_len(first, i, class) < first.len() {
            run_len(first, i, class)
        } else {
            (first.len() - i) as nat + run_len(second, 0, class)
        },
    decreases left(first, i),
{
    crate::lexical::lemma_run_in_source(first, i, class);
    if i < first.len() {
        assert((first + second)[i as int] == first[i as int]);
        if class(first[i as int]) {
            lemma_run_across(first, second, i + 1, class);
        }
    } else {
        lemma_run_shift(first, second, 0, class);
    }
}

/// Trivia does not depend on what stands in front of its start.
pub proof fn lemma_trivia_shift(front: Seq<char>, s: Seq<char>, i: nat)
    ensures
        trivia_len(front + s, front.len() + i) == trivia_len(s, i),
    decreases left(s, i),
{
    if i < s.len() {
        assert((front + s)[front.len() + i as int] == s[i as int]);
        if is_blank(s[i as int]) {
            lemma_trivia_shift(front, s, i + 1);
        } else if s[i as int] == '#' {
            let n = line_len(s, i + 1);
            lemma_run_shift(front, s, i + 1, line_class());
            lemma_trivia_shift(front, s, i + 1 + n);
        }
    }
}

/// A token does not depend on what stands in front of its start.
pub proof fn lemma_token_shift(front: Seq<char>, s: Seq<char>, i: nat)
    requires
        i < s.len(),
    ensures
        token_at(s, i) matches Ok((token, n)) ==> token_at(front + s, front.len() + i) == Ok::<
            (TokenView, nat),
            LexicalError,
        >((token, n)),
{
    let whole = front + s;
    let at = front.len() + i;
    assert(whole[at as int] == s[i as int]);
    crate::lexical::lemma_token_in_source(s, i);
    lemma_run_shift(front, s, i + 1, word_class());
    lemma_run_shift(front, s, i + 1, digit_class());
    let digits = 1 + digits_len(s, i + 1);
    crate::lexical::lemma_run_in_source(s, i + 1, digit_class());
    if i + digits < s.len() {
        assert(whole[at + digits as int] == s[i + digits as int]);
        lemma_run_shift(front, s, i + digits + 1, digit_class());
    }
    if i + 1 < s.len() {
        assert(whole[at + 1 as int] == s[i + 1 as int]);
    }
    if let Ok((token, n)) = token_at(s, i) {
        assert(whole.subrange(at as int, at + n as int) =~= s.subrange(i as int, i + n as int));
    }
}

/// The tokens of a source do not depend on what stands in front of the
/// position from which they are scanned.
pub proof fn lemma_tokens_shift(front: Seq<char>, s: Seq<char>, i: nat)
    requires
        tokens_from(s, i) is Ok,
    ensures
        tokens_from(front + s, front.len() + i) == tokens_from(s, i),
    decreases left(s, i),
{
    lemma_trivia_shift(front, s, i);
    let start = i + trivia_len(s, i);
    if start < s.len() {
        lemma_token_shift(front, s, start);
        crate::lexical::lemma_token_in_source(s, start);
        let (token, n) = token_at(s, start)->Ok_0;
        lemma_tokens_shift(front, s, start + n);
    }
}

/// Skipping a gap stops at its end, whatever not blank and no comment
/// stands behind it.
pub proof fn lemma_gap_is_skipped(gap: Seq<char>, behind: Seq<char>, i: nat)
    requires
        i <= gap.len(),
        is_gap_from(gap, i),
        behind.len() > 0 ==> !is_blank(behind[0]) && behind[0] != '#',
    ensures
        trivia_len(gap + behind, i) == gap.len() - i,
    decreases left(gap, i),
{
    let whole = gap + behind;
    if i < gap.len() {
        assert(whole[i as int] == gap[i as int]);
        if is_blank(gap[i as int]) {
            lemma_gap_is_skipped(gap, behind, i + 1);
        } else {
            let n = line_len(gap, i + 1);
            lemma_run_across(gap, behind, i + 1, line_class());
            lemma_gap_is_skipped(gap, behind, i + 1 + n + 1);
            crate::lexical::lemma_run_stops(gap, i + 1, line_class());
            let end = i + 1 + n;
            assert(whole[end as int] == gap[end as int]);
            assert(gap[end as int] == '\n');
            assert(trivia_len(whole, end) == 1 + trivia_len(whole, end + 1));
        }
    } else if behind.len() > 0 {
        assert(whole[i as int] == behind[0]);
    }
}

/// A run goes to the end of a text whose characters from the start of the
/// run on are all in the class.
pub proof fn lemma_run_to_end(s: Seq<char>, i: nat, class: spec_fn(char) -> bool)
    requires
        i <= s.len(),
        forall|k: int| i <= k < s.len() ==> class(#[trigger] s[k]),
    ensures
        run_len(s, i, class) == s.len() - i,
    decreases left(s, i),
{
    if i < s.len() {
        lemma_run_to_end(s, i + 1, class);
    }
}

/// The spelling of a token that can stand in a source is not empty and
/// begins with a character that is neither blank nor the start of a comment.
pub proof fn lemma_spelling_begins(token: TokenView)
    requires
        writable(token),
    ensures
        spelling(token).len() > 0,
        !is_blank(spelling(token)[0]),
        spelling(token)[0] != '#',
{
}

/// A word is read as the token it stands for, where no letter or digit
/// stands behind it.
proof fn lemma_word_is_read(word: Seq<char>, behind: Seq<char>)
    requires
        is_word(word),
        behind.len() > 0 ==> !is_word_char(behind[0]),
    ensures
        token_at(word + behind, 0) == Ok::<(TokenView, nat), LexicalError>(
            (word_token(word), word.len()),
        ),
{
    let whole = word + behind;
    assert(whole[0] == word[0]);
    lemma_run_to_end(word, 1, word_class());
    lemma_run_across(word, behind, 1, word_class());
    assert(whole.subrange(0, word.len() as int) =~= word);
}

/// A number literal is read as a number token, where neither a digit nor a
/// decimal point stands behind it.
proof fn lemma_number_is_read(number: Seq<char>, behind: Seq<char>)
    requires
        is_number(number),
        behind.len() > 0 ==> !is_digit(behind[0]) && behind[0] != '.',
    ensures
        token_at(number + behind, 0) == Ok::<(TokenView, nat), LexicalError>(
            (TokenView::literal(number), number.len()),
        ),
{
    let whole = number + behind;
    assert(whole[0] == number[0]);
    let digits = 1 + digits_len(number, 1);
    crate::lexical::lemma_run_in_source(number, 1, digit_class());
    lemma_run_across(number, behind, 1, digit_class());
    if digits < number.len() {
        assert(whole[digits as int] == number[digits as int]);
        crate::lexical::lemma_run_in_source(number, digits + 1, digit_class());
        lemma_run_across(number, behind, digits + 1, digit_class());
    } else if behind.len() > 0 {
        assert(whole[digits as int] == behind[0]);
    }
    assert(number_len(whole, 0) == number.len());
    assert(whole.subrange(0, number.len() as int) =~= number);
}

/// A token is read from its spelling, where it ends before what stands
/// behind it.
pub proof fn lemma_token_is_read(token: TokenView, behind: Seq<char>)
    requires
        writable(token),
        behind.len() > 0 ==> ends_before(token, behind[0]),
    ensures
        token_at(spelling(token) + behind, 0) == Ok::<
            (TokenView, nat),
            LexicalError,
        >((token, spelling(token).len())),
{
    let text = spelling(token);
    let whole = text + behind;
    assert(whole[0] == text[0]);
    assert(token.identifier.len() == 0 ==> token.identifier =~= Seq::<char>::empty());
    assert(token.number.len() == 0 ==> token.number =~= Seq::<char>::empty());
    match token.token_type {
        TokenType::TokIdentifier | TokenType::TokDef | TokenType::TokExtern | TokenType::TokIf
        | TokenType::TokElse | TokenType::TokReturn => {
            assert(is_word(text));
            lemma_word_is_read(text, behind);
            assert(seq!['d', 'e', 'f'].len() == 3);
            assert(seq!['e', 'x', 't', 'e', 'r', 'n'].len() == 6);
            assert(seq!['i', 'f'].len() == 2);
            assert(seq!['e', 'l', 's', 'e'].len() == 4);
            assert(seq!['r', 'e', 't', 'u', 'r', 'n'].len() == 6);
            assert(seq!['e', 'x', 't', 'e', 'r', 'n'][0] != seq!['r', 'e', 't', 'u', 'r', 'n'][0]);
            assert(word_token(text) == token);
        },
        TokenType::TokNumber => {
            lemma_number_is_read(text, behind);
        },
        _ => {
            if text.len() > 1 {
                assert(whole[1] == text[1]);
            } else if behind.len() > 0 {
                assert(whole[1] == behind[0]);
            }
        },
    }
}

/// What stands at the start of a gap or a tail that is not empty ends every
/// token.
proof fn lemma_trivia_ends_tokens(token: TokenView, gap: Seq<char>)
    requires
        gap.len() > 0,
        is_gap(gap) || is_tail(gap),
    ensures
        ends_before(token, gap[0]),
        is_blank(gap[0]) || gap[0] == '#',
{
}

/// The head of what is written from `first` on.
proof fn lemma_written_begins(tokens: Seq<TokenView>, gaps: Seq<Seq<char>>, first: nat)
    requires
        lays_out(tokens, gaps),
        0 < first <= tokens.len(),
    ensures
        written_from(tokens, gaps, first).len() > 0 ==> ends_before(
            tokens[first - 1],
            written_from(tokens, gaps, first)[0],
        ),
{
    let rest = written_from(tokens, gaps, first);
    let gap = gaps[first as int];
    if rest.len() > 0 {
        if gap.len() > 0 {
            if first < tokens.len() {
                assert(rest[0] == gap[0]);
            }
            lemma_trivia_ends_tokens(tokens[first - 1], gap);
        } else {
            assert(first < tokens.len());
            lemma_spelling_begins(tokens[first as int]);
            assert(rest[0] == spelling(tokens[first as int])[0]);
        }
    }
}

/// One token more in front: a gap, a token and a source behind them are
/// scanned to the token and the tokens of that source.
proof fn lemma_one_more(
    gap: Seq<char>,
    token: TokenView,
    rest: Seq<char>,
    rest_tokens: Seq<TokenView>,
)
    requires
        is_gap(gap),
        writable(token),
        rest.len() > 0 ==> ends_before(token, rest[0]),
        tokens_from(rest, 0) == Ok::<Seq<TokenView>, LexicalError>(rest_tokens),
    ensures
        tokens_from(gap + spelling(token) + rest, 0) == Ok::<
            Seq<TokenView>,
            LexicalError,
        >(seq![token] + rest_tokens),
{
    let text = spelling(token);
    let source = gap + text + rest;
    lemma_spelling_begins(token);
    assert(source =~= gap + (text + rest));
    assert((text + rest)[0] == text[0]);
    lemma_gap_is_skipped(gap, text + rest, 0);
    lemma_token_is_read(token, rest);
    lemma_token_shift(gap, text + rest, 0);
    assert(next_token(source, 0) == Ok::<Option<(TokenView, nat)>, LexicalError>(
        Some((token, gap.len() + text.len())),
    ));
    lemma_tokens_shift(gap + text, rest, 0);
}

/// Scanning what is written from `first` on gives the tokens from `first`
/// on.
pub proof fn lemma_reads_back_from(tokens: Seq<TokenView>, gaps: Seq<Seq<char>>, first: nat)
    requires
        lays_out(tokens, gaps),
        first <= tokens.len(),
    ensures
        tokens_from(written_from(tokens, gaps, first), 0) == Ok::<
            Seq<TokenView>,
            LexicalError,
        >(
            tokens.subrange(first as int, tokens.len() as int).push(
                TokenView::plain(TokenType::TokEof),
            ),
        ),
    decreases tokens.len() - first,
{
    let eof = TokenView::plain(TokenType::TokEof);
    if first == tokens.len() {
        assert(tokens.subrange(first as int, tokens.len() as int).push(eof) =~= seq![eof]);
    } else {
        let rest_tokens = tokens.subrange(first + 1 as int, tokens.len() as int).push(eof);
        lemma_written_begins(tokens, gaps, first + 1);
        lemma_reads_back_from(tokens, gaps, first + 1);
        assert(writable(tokens[first as int]));
        assert(is_gap(gaps[first as int]));
        lemma_one_more(
            gaps[first as int],
            tokens[first as int],
            written_from(tokens, gaps, first + 1),
            rest_tokens,
        );
        assert(seq![tokens[first as int]] + rest_tokens =~= tokens.subrange(
            first as int,
            tokens.len() as int,
        ).push(eof));
    }
}

/// Scanning reads back what was written: the tokens of a source in which
/// `tokens` are laid out between `gaps` are `tokens`, closed by the
/// end-of-input token.
pub proof fn lemma_scanning_reads_back(tokens: Seq<TokenView>, gaps: Seq<Seq<char>>)
    requires
        lays_out(tokens, gaps),
    ensures
        tokens_of(written(tokens, gaps)) == Ok::<Seq<TokenView>, LexicalError>(
            tokens.push(TokenView::plain(TokenType::TokEof)),
        ),
{
    lemma_reads_back_from(tokens, gaps, 0);
    assert(tokens.subrange(0, tokens.len() as int) =~= tokens);
}

/// Blanks and comments between tokens do not matter: two sources in which
/// the same tokens are laid out, between whatever gaps, have the same
/// tokens.
pub proof fn lemma_gaps_do_not_matter(
    tokens: Seq<TokenView>,
    gaps: Seq<Seq<char>>,
    other_gaps: Seq<Seq<char>>,
)
    requires
        lays_out(tokens, gaps),
        lays_out(tokens, other_gaps),
    ensures
        tokens_of(written(tokens, gaps)) == tokens_of(written(tokens, other_gaps)),
{
    lemma_scanning_reads_back(tokens, gaps);
    lemma_scanning_reads_back(tokens, other_gaps);
}

/// The gaps that put a single blank between neighbours and nothing in front
/// of the first token or behind the last.
pub open spec fn single_blanks(count: nat) -> Seq<Seq<char>> {
    Seq::new(
        count + 1,
        |k: int|
            if 0 < k < count {
                seq![' ']
            } else {
                Seq::empty()
            },
    )
}

/// The source in which `tokens` are written one after the other, separated
/// by single blanks.
pub open spec fn spaced(tokens: Seq<TokenView>) -> Seq<char> {
    written(tokens, single_blanks(tokens.len()))
}

/// Round trip: tokens that are written down, separated by blanks, and
/// scanned come back as they were, kinds and payloads, closed by the
/// end-of-input token.
pub proof fn lemma_round_trip(tokens: Seq<TokenView>)
    requires
        forall|k: int| 0 <= k < tokens.len() ==> writable(#[trigger] tokens[k]),
    ensures
        tokens_of(spaced(tokens)) == Ok::<Seq<TokenView>, LexicalError>(
            tokens.push(TokenView::plain(TokenType::TokEof)),
        ),
{
    let gaps = single_blanks(tokens.len());
    assert(is_gap(Seq::<char>::empty()));
    assert(is_tail(Seq::<char>::empty()));
    assert(is_gap(seq![' '])) by {
        assert(is_gap_from(seq![' '], 1));
    }
    assert forall|k: int| 0 <= k < tokens.len() implies is_gap(#[trigger] gaps[k]) by {}
    lemma_scanning_reads_back(tokens, gaps);
}

/// In a run, every character is in the class.
pub proof fn lemma_run_in_class(s: Seq<char>, i: nat, class: spec_fn(char) -> bool)
    ensures
        forall|k: int| i <= k < i + run_len(s, i, class) ==> class(#[trigger] s[k]),
    decreases left(s, i),
{
    if i < s.len() && class(s[i as int]) {
        lemma_run_in_class(s, i + 1, class);
    }
}

/// A run inside a part of a text: as long as the run of the whole text, or
/// cut off at the end of the part.
pub proof fn lemma_run_in_part(
    s: Seq<char>,
    from: nat,
    to: nat,
    i: nat,
    class: spec_fn(char) -> bool,
)
    requires
        from + i <= to <= s.len(),
    ensures
        run_len(s.subrange(from as int, to as int), i, class) == if from + i + run_len(
            s,
            from + i,
            class,
        ) < to {
            run_len(s, from + i, class)
        } else {
            (to - from - i) as nat
        },
    decreases to - from - i,
{
    let part = s.subrange(from as int, to as int);
    if from + i < to {
        assert(part[i as int] == s[from + i as int]);
        if class(part[i as int]) {
            lemma_run_in_part(s, from, to, i + 1, class);
        }
    }
}

/// The token that is scanned at a position can stand in a source, and its
/// spelling is what stands at that position.
pub proof fn lemma_scanned_token_is_writable(s: Seq<char>, i: nat)
    requires
        i < s.len(),
    ensures
        token_at(s, i) matches Ok((token, n)) ==> writable(token) && spelling(token)
            == s.subrange(i as int, i + n as int),
{
    crate::lexical::lemma_token_in_source(s, i);
    if let Ok((token, n)) = token_at(s, i) {
        let text = s.subrange(i as int, i + n as int);
        let c = s[i as int];
        assert(text[0] == c);
        if is_letter(c) {
            lemma_run_in_class(s, i + 1, word_class());
            assert(is_word(text)) by {
                assert forall|k: int| 0 <= k < text.len() implies is_word_char(
                    #[trigger] text[k],
                ) by {
                    assert(text[k] == s[i + k]);
                }
            }
            assert(spelling(token) =~= text);
        } else if is_digit(c) {
            let digits = 1 + digits_len(s, i + 1);
            lemma_run_in_part(s, i, i + n, 1, digit_class());
            if n > digits {
                assert(text[digits as int] == s[i + digits as int]);
                lemma_run_in_part(s, i, i + n, digits + 1, digit_class());
            }
            assert(is_number(text));
        } else {
            if n == 2 {
                assert(text[1] == s[i + 1 as int]);
                assert(text =~= seq![text[0], text[1]]);
            } else {
                assert(text =~= seq![text[0]]);
            }
            assert(spelling(token) =~= text);
        }
    }
}

/// The tokens of a source can stand in a source, all but the end-of-input
/// token that closes them.
pub proof fn lemma_scanned_tokens_are_writable(s: Seq<char>, i: nat)
    ensures
        tokens_from(s, i) matches Ok(tokens) ==> {
            &&& tokens.len() > 0
            &&& tokens.last() == TokenView::plain(TokenType::TokEof)
            &&& forall|k: int| 0 <= k < tokens.len() - 1 ==> writable(#[trigger] tokens[k])
        },
    decreases left(s, i),
{
    let start = i + trivia_len(s, i);
    if start < s.len() {
        crate::lexical::lemma_token_in_source(s, start);
        lemma_scanned_token_is_writable(s, start);
        if let Ok((token, n)) = token_at(s, start) {
            lemma_scanned_tokens_are_writable(s, start + n);
            if let Ok(rest) = tokens_from(s, start + n) {
                let tokens = seq![token] + rest;
                assert(tokens.last() == rest.last());
                assert forall|k: int| 0 <= k < tokens.len() - 1 implies writable(
                    #[trigger] tokens[k],
                ) by {
                    if k > 0 {
                        assert(tokens[k] == rest[k - 1]);
                    }
                }
            }
        }
    }
}

/// Scanning is idempotent over writing: the tokens of a source, written
/// down again with single blanks between them, are scanned to the same
/// tokens.
pub proof fn lemma_rescanned(s: Seq<char>)
    requires
        tokens_of(s) is Ok,
    ensures
        tokens_of(spaced(tokens_of(s)->Ok_0.drop_last())) == tokens_of(s),
{
    let tokens = tokens_of(s)->Ok_0;
    lemma_scanned_tokens_are_writable(s, 0);
    lemma_round_trip(tokens.drop_last());
    assert(tokens.drop_last().push(tokens.last()) =~= tokens);
}

/// Tells whether `token` is one that scanning yields: a token that can stand
/// in a source, or the end-of-input token.
pub open spec fn scanned(token: TokenView) -> bool {
    writable(token) || token == TokenView::plain(TokenType::TokEof)
}

/// No identifier reads like a token of another kind.
proof fn lemma_name_is_no_word(token: TokenView, identifier: TokenView)
    requires
        scanned(token),
        writable(identifier),
        identifier.token_type == TokenType::TokIdentifier,
        token.token_type != TokenType::TokIdentifier,
    ensures
        token.rendered() != identifier.rendered(),
{
    let kind = token.token_type;
    if kind != TokenType::TokNumber {
        lemma_name_shape(kind);
        if !kind.is_keyword() {
            let i = choose|i: int|
                0 <= i < kind.symbolic_name().len() && #[trigger] kind.symbolic_name()[i] == '_';
            assert(!is_word_char(kind.symbolic_name()[i]));
        }
    }
}

/// The rendering tells the token: two tokens that scanning yields and that
/// read the same in a diagnostic are the same token, kind and payload.
pub proof fn lemma_rendering_tells_token(token: TokenView, other: TokenView)
    requires
        scanned(token),
        scanned(other),
        token.rendered() == other.rendered(),
    ensures
        token == other,
{
    if token.token_type == other.token_type {
        assert(token.identifier.len() == 0 ==> token.identifier =~= Seq::<char>::empty());
        assert(token.number.len() == 0 ==> token.number =~= Seq::<char>::empty());
        assert(other.identifier.len() == 0 ==> other.identifier =~= Seq::<char>::empty());
        assert(other.number.len() == 0 ==> other.number =~= Seq::<char>::empty());
    } else if token.token_type == TokenType::TokIdentifier {
        lemma_name_is_no_word(other, token);
    } else if other.token_type == TokenType::TokIdentifier {
        lemma_name_is_no_word(token, other);
    } else if token.token_type == TokenType::TokNumber {
        lemma_name_shape(other.token_type);
    } else if other.token_type == TokenType::TokNumber {
        lemma_name_shape(token.token_type);
    } else {
        lemma_names_differ(token.token_type, other.token_type);
    }
}

} // verus!
