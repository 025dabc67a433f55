//! Tokens and the scanner that produces them.

use crate::lexical::{
    blank_len, digit_class, is_digit, is_letter, keyword_of, left, lemma_run_in_source,
    lemma_run_stops, lemma_token_in_source, lemma_trivia_after_blanks, line_class, next_token,
    run_len, symbol_at, tokens_from, tokens_of, trivia_len, word_class,
};
use vstd::prelude::*;

verus! {

/// The closed set of token kinds.
#[derive(Clone, Copy, Debug, PartialEq, Eq, Structural)]
pub enum TokenType {
    TokEof,
    // keywords
    TokDef,
    TokExtern,
    TokIf,
    TokElse,
    TokReturn,
    // variables
    TokIdentifier,
    // literals
    TokNumber,
    // misc
    TokRpar,
    TokLpar,
    TokRbrak,
    TokLbrak,
    TokComma,
    // assignment
    TokEquals,
    // comparators
    TokLt,
    TokGt,
    TokLte,
    TokGte,
    // operations
    TokAdd,
    TokSub,
    TokMul,
    TokDiv,
    TokMod,
}

/// A token: its kind, and for two kinds a payload.
///
/// `identifier` holds the name of a `TokIdentifier`. `number` holds the
/// literal of a `TokNumber` exactly as it was written, digits with at most one
/// decimal point; turning it into a machine number is left to the caller.
/// Both are empty on every other kind.
#[derive(Clone, Debug, PartialEq, Eq)]
pub struct Token {
    pub token_type: TokenType,
    pub identifier: String,
    pub number: String,
}

/// What a [`Token`] stands for in contracts.
pub struct TokenView {
    pub token_type: TokenType,
    pub identifier: Seq<char>,
    pub number: Seq<char>,
}

impl View for Token {
    type V = TokenView;

    open spec fn view(&self) -> TokenView {
        TokenView { token_type: self.token_type, identifier: self.identifier@, number: self.number@ }
    }
}

impl DeepView for Token {
    type V = TokenView;

    open spec fn deep_view(&self) -> TokenView {
        self@
    }
}

impl TokenType {
    /// The fixed name under which a kind appears in diagnostics.
    ///
    /// A keyword is named by itself. Every other name holds an underscore,
    /// which no identifier holds, so that no name reads like an identifier.
    pub open spec fn symbolic_name(self) -> Seq<char> {
        match self {
            TokenType::TokEof => "end_of_input"@,
            TokenType::TokDef => "def"@,
            TokenType::TokExtern => seq!['e', 'x', 't', 'e', 'r', 'n'],
            TokenType::TokIf => "if"@,
            TokenType::TokElse => "else"@,
            TokenType::TokReturn => "return"@,
            TokenType::TokIdentifier => "an_identifier"@,
            TokenType::TokNumber => "a_number"@,
            TokenType::TokRpar => "right_parenthesis"@,
            TokenType::TokLpar => "left_parenthesis"@,
            TokenType::TokRbrak => "right_bracket"@,
            TokenType::TokLbrak => "left_bracket"@,
            TokenType::TokComma => "comma_sign"@,
            TokenType::TokEquals => "equals_sign"@,
            TokenType::TokLt => "less_than"@,
            TokenType::TokGt => "greater_than"@,
            TokenType::TokLte => "less_than_equal"@,
            TokenType::TokGte => "greater_than_equal"@,
            TokenType::TokAdd => "plus_sign"@,
            TokenType::TokSub => "minus_sign"@,
            TokenType::TokMul => "times_sign"@,
            TokenType::TokDiv => "division_sign"@,
            TokenType::TokMod => "percent_sign"@,
        }
    }

    /// Tells whether the kind is one of the five keywords.
    pub open spec fn is_keyword(self) -> bool {
        self == TokenType::TokDef || self == TokenType::TokExtern || self == TokenType::TokIf
            || self == TokenType::TokElse || self == TokenType::TokReturn
    }

    /// The name of the kind, as a diagnostic shows it.
    pub fn to_string(self) -> (text: String)
        ensures
            text@ == self.symbolic_name(),
    {
        match self {
            TokenType::TokEof => String::from_str("end_of_input"),
            TokenType::TokDef => String::from_str("def"),
            TokenType::TokExtern => {
                let text = String::from_str("ex").concat("tern");
                proof {
                    reveal_strlit("ex");
                    reveal_strlit("tern");
                    assert(text@ =~= seq!['e', 'x', 't', 'e', 'r', 'n']);
                }
                text
            },
            TokenType::TokIf => String::from_str("if"),
            TokenType::TokElse => String::from_str("else"),
            TokenType::TokReturn => String::from_str("return"),
            TokenType::TokIdentifier => String::from_str("an_identifier"),
            TokenType::TokNumber => String::from_str("a_number"),
            TokenType::TokRpar => String::from_str("right_parenthesis"),
            TokenType::TokLpar => String::from_str("left_parenthesis"),
            TokenType::TokRbrak => String::from_str("right_bracket"),
            TokenType::TokLbrak => String::from_str("left_bracket"),
            TokenType::TokComma => String::from_str("comma_sign"),
            TokenType::TokEquals => String::from_str("equals_sign"),
            TokenType::TokLt => String::from_str("less_than"),
            TokenType::TokGt => String::from_str("greater_than"),
            TokenType::TokLte => String::from_str("less_than_equal"),
            TokenType::TokGte => String::from_str("greater_than_equal"),
            TokenType::TokAdd => String::from_str("plus_sign"),
            TokenType::TokSub => String::from_str("minus_sign"),
            TokenType::TokMul => String::from_str("times_sign"),
            TokenType::TokDiv => String::from_str("division_sign"),
            TokenType::TokMod => String::from_str("percent_sign"),
        }
    }

    /// True for the nine kinds that join two operands.
    pub open spec fn is_binary_operator(self) -> bool {
        self == TokenType::TokAdd || self == TokenType::TokSub || self == TokenType::TokMul
            || self == TokenType::TokDiv || self == TokenType::TokMod || self == TokenType::TokGt
            || self == TokenType::TokGte || self == TokenType::TokLt || self == TokenType::TokLte
    }
}

impl TokenView {
    /// A token of kind `kind` with no payload.
    pub open spec fn plain(kind: TokenType) -> TokenView {
        TokenView { token_type: kind, identifier: Seq::empty(), number: Seq::empty() }
    }

    /// The identifier token named `name`.
    pub open spec fn name(name: Seq<char>) -> TokenView {
        TokenView { token_type: TokenType::TokIdentifier, identifier: name, number: Seq::empty() }
    }

    /// The number token written as `literal`.
    pub open spec fn literal(literal: Seq<char>) -> TokenView {
        TokenView { token_type: TokenType::TokNumber, identifier: Seq::empty(), number: literal }
    }

    /// How the token reads in a diagnostic: an identifier by its name, a
    /// number by its literal, every other kind by the name of the kind.
    pub open spec fn rendered(self) -> Seq<char> {
        if self.token_type == TokenType::TokIdentifier {
            self.identifier
        } else if self.token_type == TokenType::TokNumber {
            self.number
        } else {
            self.token_type.symbolic_name()
        }
    }
}

impl Token {
    pub fn new(token_type: TokenType, identifier: String, number: String) -> (token: Token)
        ensures
            token.token_type == token_type,
            token.identifier == identifier,
            token.number == number,
    {
        Token { token_type, identifier, number }
    }

    /// A token of kind `kind` with both payloads empty.
    pub fn plain(kind: TokenType) -> (token: Token)
        ensures
            token@ == TokenView::plain(kind),
    {
        Token { token_type: kind, identifier: String::new(), number: String::new() }
    }

    /// A copy of the token.
    pub fn duplicate(&self) -> (token: Token)
        ensures
            token == *self,
    {
        Token {
            token_type: self.token_type,
            identifier: self.identifier.clone(),
            number: self.number.clone(),
        }
    }

    /// Renders the token for a diagnostic.
    pub fn to_string(&self) -> (text: String)
        ensures
            text@ == self@.rendered(),
    {
        match self.token_type {
            TokenType::TokIdentifier => self.identifier.clone(),
            TokenType::TokNumber => self.number.clone(),
            kind => kind.to_string(),
        }
    }
}

/// What the names of the kinds are made of: a keyword is named by the
/// letters that spell it, and every other name starts with a letter and holds
/// an underscore.
pub proof fn lemma_name_shape(kind: TokenType)
    ensures
        kind.symbolic_name().len() > 0,
        is_letter(kind.symbolic_name()[0]),
        kind.is_keyword() ==> keyword_of(kind.symbolic_name()) == Some(kind),
        !kind.is_keyword() ==> exists|i: int|
            0 <= i < kind.symbolic_name().len() && #[trigger] kind.symbolic_name()[i] == '_',
{
    let name = kind.symbolic_name();
    reveal_strlit("end_of_input");
    reveal_strlit("def");
    reveal_strlit("if");
    reveal_strlit("else");
    reveal_strlit("return");
    reveal_strlit("an_identifier");
    reveal_strlit("a_number");
    reveal_strlit("right_parenthesis");
    reveal_strlit("left_parenthesis");
    reveal_strlit("right_bracket");
    reveal_strlit("left_bracket");
    reveal_strlit("comma_sign");
    reveal_strlit("equals_sign");
    reveal_strlit("less_than");
    reveal_strlit("greater_than");
    reveal_strlit("less_than_equal");
    reveal_strlit("greater_than_equal");
    reveal_strlit("plus_sign");
    reveal_strlit("minus_sign");
    reveal_strlit("times_sign");
    reveal_strlit("division_sign");
    reveal_strlit("percent_sign");
    assert(seq!['d', 'e', 'f'].len() == 3);
    assert(seq!['e', 'x', 't', 'e', 'r', 'n'].len() == 6);
    assert(seq!['i', 'f'].len() == 2);
    assert(seq!['e', 'l', 's', 'e'].len() == 4);
    assert(seq!['r', 'e', 't', 'u', 'r', 'n'].len() == 6);
    match kind {
        TokenType::TokDef => assert(name =~= seq!['d', 'e', 'f']),
        TokenType::TokExtern => {},
        TokenType::TokIf => assert(name =~= seq!['i', 'f']),
        TokenType::TokElse => assert(name =~= seq!['e', 'l', 's', 'e']),
        TokenType::TokReturn => {
            assert(name =~= seq!['r', 'e', 't', 'u', 'r', 'n']);
            assert(name[0] != seq!['e', 'x', 't', 'e', 'r', 'n'][0]);
        },
        TokenType::TokEof => assert(name[3] == '_'),
        TokenType::TokIdentifier => assert(name[2] == '_'),
        TokenType::TokNumber => assert(name[1] == '_'),
        TokenType::TokRpar => assert(name[5] == '_'),
        TokenType::TokLpar => assert(name[4] == '_'),
        TokenType::TokRbrak => assert(name[5] == '_'),
        TokenType::TokLbrak => assert(name[4] == '_'),
        TokenType::TokComma => assert(name[5] == '_'),
        TokenType::TokEquals => assert(name[6] == '_'),
        TokenType::TokLt => assert(name[4] == '_'),
        TokenType::TokGt => assert(name[7] == '_'),
        TokenType::TokLte => assert(name[4] == '_'),
        TokenType::TokGte => assert(name[7] == '_'),
        TokenType::TokAdd => assert(name[4] == '_'),
        TokenType::TokSub => assert(name[5] == '_'),
        TokenType::TokMul => assert(name[5] == '_'),
        TokenType::TokDiv => assert(name[8] == '_'),
        TokenType::TokMod => assert(name[7] == '_'),
    }
}

/// Two different kinds never share a name: the name tells the kind.
pub proof fn lemma_names_differ(kind: TokenType, other: TokenType)
    ensures
        kind.symbolic_name() == other.symbolic_name() ==> kind == other,
{
    reveal_strlit("end_of_input");
    reveal_strlit("def");
    reveal_strlit("if");
    reveal_strlit("else");
    reveal_strlit("return");
    reveal_strlit("an_identifier");
    reveal_strlit("a_number");
    reveal_strlit("right_parenthesis");
    reveal_strlit("left_parenthesis");
    reveal_strlit("right_bracket");
    reveal_strlit("left_bracket");
    reveal_strlit("comma_sign");
    reveal_strlit("equals_sign");
    reveal_strlit("less_than");
    reveal_strlit("greater_than");
    reveal_strlit("less_than_equal");
    reveal_strlit("greater_than_equal");
    reveal_strlit("plus_sign");
    reveal_strlit("minus_sign");
    reveal_strlit("times_sign");
    reveal_strlit("division_sign");
    reveal_strlit("percent_sign");
    let name = kind.symbolic_name();
    let same = other.symbolic_name();
    assert(seq!['e', 'x', 't', 'e', 'r', 'n'].len() == 6);
    assert(seq!['e', 'x', 't', 'e', 'r', 'n'][0] == 'e');
    assert(seq!['e', 'x', 't', 'e', 'r', 'n'][1] == 'x');
    if name == same {
        assert(name.len() == same.len());
        assert(name[0] == same[0]);
        assert(name[1] == same[1]);
        if name.len() > 2 {
            assert(name[2] == same[2]);
        }
        if name.len() > 9 {
            assert(name[9] == same[9]);
        }
    }
}

/// A character that starts no token.
#[derive(Clone, Copy, Debug, PartialEq, Eq, Structural)]
pub struct LexicalError {
    /// The offending character.
    pub character: char,
    /// Its index in the source, counted in characters.
    pub position: usize,
}

/// The scanner: a source, a cursor into it, and the tokens gathered so far.
pub struct Scanner {
    source: String,
    /// The characters of `source`, so that the cursor moves in constant time.
    chars: Vec<char>,
    idx: usize,
    tokens: Vec<Token>,
}

/// What a [`Scanner`] stands for in contracts.
pub struct ScannerView {
    pub source: Seq<char>,
    /// The cursor: the index of the next character to read.
    pub idx: nat,
    pub tokens: Seq<TokenView>,
}

impl View for Scanner {
    type V = ScannerView;

    closed spec fn view(&self) -> ScannerView {
        ScannerView {
            source: self.source@,
            idx: self.idx as nat,
            tokens: self.tokens.deep_view(),
        }
    }
}

fn is_letter_char(c: char) -> (b: bool)
    ensures
        b == is_letter(c),
{
    (c >= 'a' && c <= 'z') || (c >= 'A' && c <= 'Z')
}

fn is_digit_char(c: char) -> (b: bool)
    ensures
        b == is_digit(c),
{
    c >= '0' && c <= '9'
}

/// The characters of `s`, in order.
fn characters(s: &str) -> (v: Vec<char>)
    ensures
        v@ == s@,
{
    let mut v: Vec<char> = Vec::new();
    for c in it: s.chars()
        invariant
            v@ == it.seq().take(it.index()),
    {
        v.push(c);
    }
    v
}

/// The classes of characters whose runs the scanner measures.
#[derive(Clone, Copy)]
enum CharClass {
    Word,
    Digit,
    Line,
}

impl CharClass {
    spec fn members(self) -> spec_fn(char) -> bool {
        match self {
            CharClass::Word => word_class(),
            CharClass::Digit => digit_class(),
            CharClass::Line => line_class(),
        }
    }

    fn holds(self, c: char) -> (b: bool)
        ensures
            b == (self.members())(c),
    {
        match self {
            CharClass::Word => is_letter_char(c) || is_digit_char(c),
            CharClass::Digit => is_digit_char(c),
            CharClass::Line => c != '\n',
        }
    }
}

/// The end of the longest run of `class` that starts at `from`.
fn run_end(chars: &Vec<char>, from: usize, class: CharClass) -> (end: usize)
    requires
        from <= chars.len(),
    ensures
        end == from + run_len(chars@, from as nat, class.members()),
        end <= chars.len(),
{
    let mut end = from;
    while end < chars.len() && class.holds(chars[end])
        invariant
            from <= end <= chars.len(),
            end + run_len(chars@, end as nat, class.members()) == from + run_len(
                chars@,
                from as nat,
                class.members(),
            ),
        decreases chars.len() - end,
    {
        end += 1;
    }
    end
}

/// The keyword that the characters from `start` to `end` spell, if any.
fn keyword(chars: &Vec<char>, start: usize, end: usize) -> (kind: Option<TokenType>)
    requires
        start <= end <= chars.len(),
    ensures
        kind == keyword_of(chars@.subrange(start as int, end as int)),
{
    let ghost word = chars@.subrange(start as int, end as int);
    let n = end - start;
    if n == 2 && chars[start] == 'i' && chars[start + 1] == 'f' {
        assert(word =~= seq!['i', 'f']);
        Some(TokenType::TokIf)
    } else if n == 3 && chars[start] == 'd' && chars[start + 1] == 'e' && chars[start + 2] == 'f' {
        assert(word =~= seq!['d', 'e', 'f']);
        Some(TokenType::TokDef)
    } else if n == 4 && chars[start] == 'e' && chars[start + 1] == 'l' && chars[start + 2] == 's'
        && chars[start + 3] == 'e' {
        assert(word =~= seq!['e', 'l', 's', 'e']);
        Some(TokenType::TokElse)
    } else if n == 6 && chars[start] == 'e' && chars[start + 1] == 'x' && chars[start + 2] == 't'
        && chars[start + 3] == 'e' && chars[start + 4] == 'r' && chars[start + 5] == 'n' {
        assert(word =~= seq!['e', 'x', 't', 'e', 'r', 'n']);
        Some(TokenType::TokExtern)
    } else if n == 6 && chars[start] == 'r' && chars[start + 1] == 'e' && chars[start + 2] == 't'
        && chars[start + 3] == 'u' && chars[start + 4] == 'r' && chars[start + 5] == 'n' {
        assert(word =~= seq!['r', 'e', 't', 'u', 'r', 'n']);
        Some(TokenType::TokReturn)
    } else {
        assert(word.len() == n);
        assert(forall|k: int| 0 <= k < n ==> word[k] == chars@[start + k]);
        assert(seq!['i', 'f'].len() == 2 && seq!['d', 'e', 'f'].len() == 3);
        assert(seq!['e', 'l', 's', 'e'].len() == 4);
        assert(seq!['e', 'x', 't', 'e', 'r', 'n'].len() == 6);
        assert(seq!['r', 'e', 't', 'u', 'r', 'n'].len() == 6);
        None
    }
}

impl Scanner {
    #[verifier::type_invariant]
    spec fn well_formed(self) -> bool {
        &&& self.chars@ == self.source@
        &&& self.idx <= self.chars@.len()
    }

    /// A scanner at the start of `source`, with no tokens yet.
    pub fn new(source: String) -> (scanner: Scanner)
        ensures
            scanner@.source == source@,
            scanner@.idx == 0,
            scanner@.tokens == Seq::<TokenView>::empty(),
    {
        let chars = characters(source.as_str());
        let scanner = Scanner { source, chars, idx: 0, tokens: Vec::new() };
        assert(scanner.tokens.deep_view() =~= Seq::<TokenView>::empty());
        scanner
    }

    fn is_at_end(&self) -> (b: bool)
        ensures
            b == (self@.idx >= self@.source.len()),
    {
        proof {
            use_type_invariant(self);
        }
        self.idx >= self.chars.len()
    }

    fn get_char(&self) -> (c: char)
        requires
            self@.idx < self@.source.len(),
        ensures
            c == self@.source[self@.idx as int],
    {
        proof {
            use_type_invariant(self);
        }
        self.chars[self.idx]
    }

    fn is_space(&self) -> (b: bool)
        requires
            self@.idx < self@.source.len(),
        ensures
            b == (self@.source[self@.idx as int] == ' '),
    {
        self.get_char() == ' '
    }

    fn is_new_line(&self) -> (b: bool)
        requires
            self@.idx < self@.source.len(),
        ensures
            b == (self@.source[self@.idx as int] == '\n'),
    {
        self.get_char() == '\n'
    }

    /// Moves the cursor over the blanks in front of it.
    fn skip_spaces(&mut self)
        ensures
            final(self)@.source == old(self)@.source,
            final(self)@.tokens == old(self)@.tokens,
            final(self)@.idx == old(self)@.idx + blank_len(old(self)@.source, old(self)@.idx),
    {
        while !self.is_at_end() && (self.is_space() || self.is_new_line())
            invariant
                self@.source == old(self)@.source,
                self@.tokens == old(self)@.tokens,
                self@.idx + blank_len(self@.source, self@.idx) == old(self)@.idx + blank_len(
                    old(self)@.source,
                    old(self)@.idx,
                ),
            decreases left(self@.source, self@.idx),
        {
            proof {
                use_type_invariant(&*self);
                assert(self.idx < self.chars.len());
            }
            self.idx += 1;
        }
    }

    /// Moves the cursor over the blanks and comments in front of it.
    fn skip_trivia(&mut self)
        ensures
            final(self)@.source == old(self)@.source,
            final(self)@.tokens == old(self)@.tokens,
            final(self)@.idx == old(self)@.idx + trivia_len(old(self)@.source, old(self)@.idx),
            final(self)@.idx <= final(self)@.source.len(),
    {
        loop
            invariant
                self@.source == old(self)@.source,
                self@.tokens == old(self)@.tokens,
                self@.idx + trivia_len(self@.source, self@.idx) == old(self)@.idx + trivia_len(
                    old(self)@.source,
                    old(self)@.idx,
                ),
            ensures
                self@.source == old(self)@.source,
                self@.tokens == old(self)@.tokens,
                self@.idx == old(self)@.idx + trivia_len(old(self)@.source, old(self)@.idx),
                self@.idx <= self@.source.len(),
            decreases left(self@.source, self@.idx),
        {
            proof {
                use_type_invariant(&*self);
                lemma_trivia_after_blanks(self@.source, self@.idx);
                lemma_run_stops(self@.source, self@.idx, crate::lexical::blank_class());
                lemma_run_in_source(self@.source, self@.idx, crate::lexical::blank_class());
            }
            self.skip_spaces();
            if self.is_at_end() {
                break;
            }
            if self.get_char() != '#' {
                break;
            }
            proof {
                use_type_invariant(&*self);
                assert(self.idx < self.chars.len());
            }
            let end = run_end(&self.chars, self.idx + 1, CharClass::Line);
            self.idx = end;
        }
    }

    /// The source text from `start` to `end`.
    fn text(&self, start: usize, end: usize) -> (text: String)
        requires
            start <= end <= self@.source.len(),
        ensures
            text@ == self@.source.subrange(start as int, end as int),
    {
        String::from_str(self.source.as_str().substring_char(start, end))
    }

    /// The punctuation or operator under the cursor, with its length.
    fn symbol(&self) -> (found: Option<(TokenType, usize)>)
        requires
            self@.idx < self@.source.len(),
        ensures
            match symbol_at(self@.source, self@.idx) {
                Some((kind, n)) => found == Some((kind, n as usize)) && 1 <= n <= 2,
                None => found is None,
            },
    {
        proof {
            use_type_invariant(self);
            assert(self.idx < self.chars.len());
        }
        let c = self.chars[self.idx];
        let widened = self.idx + 1 < self.chars.len() && self.chars[self.idx + 1] == '=';
        if c == '(' {
            Some((TokenType::TokLpar, 1))
        } else if c == ')' {
            Some((TokenType::TokRpar, 1))
        } else if c == '{' {
            Some((TokenType::TokLbrak, 1))
        } else if c == '}' {
            Some((TokenType::TokRbrak, 1))
        } else if c == '<' {
            if widened {
                Some((TokenType::TokLte, 2))
            } else {
                Some((TokenType::TokLt, 1))
            }
        } else if c == '>' {
            if widened {
                Some((TokenType::TokGte, 2))
            } else {
                Some((TokenType::TokGt, 1))
            }
        } else if c == '+' {
            Some((TokenType::TokAdd, 1))
        } else if c == '-' {
            Some((TokenType::TokSub, 1))
        } else if c == '*' {
            Some((TokenType::TokMul, 1))
        } else if c == '/' {
            Some((TokenType::TokDiv, 1))
        } else if c == '%' {
            Some((TokenType::TokMod, 1))
        } else if c == ',' {
            Some((TokenType::TokComma, 1))
        } else if c == '=' {
            Some((TokenType::TokEquals, 1))
        } else {
            None
        }
    }

    /// Reads the next token, if one is left, and moves the cursor behind it.
    ///
    /// Where only blanks and comments are left the result is `None`. Where a
    /// character starts no token the cursor rests on that character.
    pub fn get_token(&mut self) -> (result: Result<Option<Token>, LexicalError>)
        ensures
            final(self)@.source == old(self)@.source,
            final(self)@.tokens == old(self)@.tokens,
            final(self)@.idx <= final(self)@.source.len(),
            match next_token(old(self)@.source, old(self)@.idx) {
                Ok(Some((token, end))) => {
                    &&& result matches Ok(Some(t))
                    &&& t@ == token
                    &&& final(self)@.idx == end
                    &&& end > old(self)@.idx
                },
                Ok(None) => {
                    &&& result matches Ok(None)
                    &&& final(self)@.idx == final(self)@.source.len()
                },
                Err(e) => {
                    &&& result == Err::<Option<Token>, LexicalError>(e)
                    &&& final(self)@.idx == e.position
                },
            },
    {
        self.skip_trivia();
        if self.is_at_end() {
            return Ok(None);
        }
        proof {
            use_type_invariant(&*self);
            assert(self.idx < self.chars.len());
            lemma_token_in_source(self@.source, self@.idx);
        }
        let start = self.idx;
        let c = self.get_char();
        if is_letter_char(c) {
            let end = run_end(&self.chars, start + 1, CharClass::Word);
            let kind = keyword(&self.chars, start, end);
            self.idx = end;
            match kind {
                Some(kind) => Ok(Some(Token::plain(kind))),
                None => Ok(
                    Some(
                        Token {
                            token_type: TokenType::TokIdentifier,
                            identifier: self.text(start, end),
                            number: String::new(),
                        },
                    ),
                ),
            }
        } else if is_digit_char(c) {
            let mut end = run_end(&self.chars, start + 1, CharClass::Digit);
            if end < self.chars.len() && self.chars[end] == '.' {
                end = run_end(&self.chars, end + 1, CharClass::Digit);
            }
            self.idx = end;
            Ok(
                Some(
                    Token {
                        token_type: TokenType::TokNumber,
                        identifier: String::new(),
                        number: self.text(start, end),
                    },
                ),
            )
        } else {
            match self.symbol() {
                Some((kind, n)) => {
                    self.idx = start + n;
                    Ok(Some(Token::plain(kind)))
                },
                None => Err(LexicalError { character: c, position: start }),
            }
        }
    }

    /// Scans the rest of the source and appends its tokens, closed by the
    /// end-of-input token, to those already gathered.
    ///
    /// On an error the gathered tokens are what they were before the call, and
    /// the cursor rests on the offending character.
    pub fn scan_tokens(&mut self) -> (result: Result<(), LexicalError>)
        ensures
            final(self)@.source == old(self)@.source,
            match tokens_from(old(self)@.source, old(self)@.idx) {
                Ok(tokens) => {
                    &&& result is Ok
                    &&& final(self)@.tokens == old(self)@.tokens + tokens
                    &&& final(self)@.idx == final(self)@.source.len()
                },
                Err(e) => {
                    &&& result == Err::<(), LexicalError>(e)
                    &&& final(self)@.tokens == old(self)@.tokens
                    &&& final(self)@.idx == e.position
                },
            },
    {
        let mut fresh: Vec<Token> = Vec::new();
        assert(fresh.deep_view() =~= Seq::<TokenView>::empty());
        loop
            invariant
                self@.source == old(self)@.source,
                self@.tokens == old(self)@.tokens,
                match tokens_from(self@.source, self@.idx) {
                    Ok(rest) => tokens_from(old(self)@.source, old(self)@.idx) == Ok::<
                        Seq<TokenView>,
                        LexicalError,
                    >(fresh.deep_view() + rest),
                    Err(e) => tokens_from(old(self)@.source, old(self)@.idx) == Err::<
                        Seq<TokenView>,
                        LexicalError,
                    >(e),
                },
            ensures
                self@.source == old(self)@.source,
                self@.tokens == old(self)@.tokens,
                self@.idx == self@.source.len(),
                tokens_from(old(self)@.source, old(self)@.idx) == Ok::<
                    Seq<TokenView>,
                    LexicalError,
                >(fresh.deep_view().push(TokenView::plain(TokenType::TokEof))),
            decreases left(self@.source, self@.idx),
        {
            let ghost before = fresh.deep_view();
            match self.get_token() {
                Err(e) => {
                    return Err(e);
                },
                Ok(None) => {
                    assert(fresh.deep_view() + seq![TokenView::plain(TokenType::TokEof)]
                        =~= fresh.deep_view().push(TokenView::plain(TokenType::TokEof)));
                    break;
                },
                Ok(Some(token)) => {
                    fresh.push(token);
                    assert(fresh.deep_view() =~= before.push(token@));
                    assert forall|rest: Seq<TokenView>|
                        before + (seq![token@] + rest) =~= #[trigger] (fresh.deep_view() + rest) by {}
                },
            }
        }
        let ghost scanned = fresh.deep_view();
        let ghost gathered = self.tokens.deep_view();
        fresh.push(Token::plain(TokenType::TokEof));
        assert(fresh.deep_view() =~= scanned.push(TokenView::plain(TokenType::TokEof)));
        let mut all: Vec<Token> = Vec::new();
        proof {
            use_type_invariant(&*self);
        }
        core::mem::swap(&mut self.tokens, &mut all);
        all.append(&mut fresh);
        self.tokens = all;
        assert(self.tokens.deep_view() =~= gathered + scanned.push(
            TokenView::plain(TokenType::TokEof),
        ));
        Ok(())
    }

    /// Hands over the gathered tokens.
    pub fn get_tokens(self) -> (tokens: Vec<Token>)
        ensures
            tokens.deep_view() == self@.tokens,
    {
        self.tokens
    }
}

/// Scans a whole source into its tokens, closed by the end-of-input token.
pub fn scan(source: String) -> (result: Result<Vec<Token>, LexicalError>)
    ensures
        match tokens_of(source@) {
            Ok(tokens) => result matches Ok(v) && v.deep_view() == tokens,
            Err(e) => result matches Err(found) && found == e,
        },
{
    let mut scanner = Scanner::new(source);
    match scanner.scan_tokens() {
        Ok(()) => {
            assert(Seq::<TokenView>::empty() + tokens_of(source@)->Ok_0 =~= tokens_of(source@)->Ok_0);
            Ok(scanner.get_tokens())
        },
        Err(e) => Err(e),
    }
}

} // verus!
