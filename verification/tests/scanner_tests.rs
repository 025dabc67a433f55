use toylang::scanner::{scan, LexicalError, Scanner, Token, TokenType};

fn kinds(tokens: &[Token]) -> Vec<TokenType> {
    tokens.iter().map(|t| t.token_type).collect()
}

fn plain(kind: TokenType) -> Token {
    Token::new(kind, String::new(), String::new())
}

fn name(text: &str) -> Token {
    Token::new(TokenType::TokIdentifier, String::from(text), String::new())
}

fn number(text: &str) -> Token {
    Token::new(TokenType::TokNumber, String::new(), String::from(text))
}

#[test]
fn scans_the_empty_source_to_end_of_input() {
    let tokens = scan(String::new()).unwrap();
    assert_eq!(tokens, vec![plain(TokenType::TokEof)]);
}

#[test]
fn scans_blanks_and_comments_alone_to_end_of_input() {
    let tokens = scan(String::from("  \n # nothing here\n\n   # nor here")).unwrap();
    assert_eq!(tokens, vec![plain(TokenType::TokEof)]);
}

#[test]
fn scans_keywords_and_identifiers() {
    let source = format!("def {} if else return defx Def", ["ex", "tern"].concat());
    let tokens = scan(source).unwrap();
    assert_eq!(
        tokens,
        vec![
            plain(TokenType::TokDef),
            plain(TokenType::TokExtern),
            plain(TokenType::TokIf),
            plain(TokenType::TokElse),
            plain(TokenType::TokReturn),
            name("defx"),
            name("Def"),
            plain(TokenType::TokEof),
        ]
    );
}

#[test]
fn scans_every_symbol() {
    let tokens = scan(String::from("( ) { } , = < > <= >= + - * / %")).unwrap();
    assert_eq!(
        kinds(&tokens),
        vec![
            TokenType::TokLpar,
            TokenType::TokRpar,
            TokenType::TokLbrak,
            TokenType::TokRbrak,
            TokenType::TokComma,
            TokenType::TokEquals,
            TokenType::TokLt,
            TokenType::TokGt,
            TokenType::TokLte,
            TokenType::TokGte,
            TokenType::TokAdd,
            TokenType::TokSub,
            TokenType::TokMul,
            TokenType::TokDiv,
            TokenType::TokMod,
            TokenType::TokEof,
        ]
    );
}

#[test]
fn widens_a_comparator_only_by_a_directly_following_equals_sign() {
    let tokens = scan(String::from("<= < = >=> ==")).unwrap();
    assert_eq!(
        kinds(&tokens),
        vec![
            TokenType::TokLte,
            TokenType::TokLt,
            TokenType::TokEquals,
            TokenType::TokGte,
            TokenType::TokGt,
            TokenType::TokEquals,
            TokenType::TokEquals,
            TokenType::TokEof,
        ]
    );
}

#[test]
fn scans_numbers_with_at_most_one_decimal_point() {
    let tokens = scan(String::from("1 23.5 007 4. 1.50")).unwrap();
    assert_eq!(
        tokens,
        vec![
            number("1"),
            number("23.5"),
            number("007"),
            number("4."),
            number("1.50"),
            plain(TokenType::TokEof),
        ]
    );
    let values: Vec<f64> =
        tokens[..5].iter().map(|t| t.number.parse::<f64>().unwrap()).collect();
    assert_eq!(values, vec![1.0, 23.5, 7.0, 4.0, 1.5]);
}

#[test]
fn scans_a_number_at_the_very_end_of_the_source() {
    let tokens = scan(String::from("x = 42")).unwrap();
    assert_eq!(
        tokens,
        vec![name("x"), plain(TokenType::TokEquals), number("42"), plain(TokenType::TokEof)]
    );
}

#[test]
fn a_second_decimal_point_starts_no_token() {
    assert_eq!(scan(String::from("1.2.3")), Err(LexicalError { character: '.', position: 3 }));
}

#[test]
fn takes_the_longest_word_and_the_longest_number() {
    let tokens = scan(String::from("return1 1return if2else")).unwrap();
    assert_eq!(
        tokens,
        vec![
            name("return1"),
            number("1"),
            plain(TokenType::TokReturn),
            name("if2else"),
            plain(TokenType::TokEof),
        ]
    );
}

#[test]
fn rejects_an_unknown_character() {
    assert_eq!(scan(String::from("a $")), Err(LexicalError { character: '$', position: 2 }));
}

#[test]
fn rejects_tabs_underscores_and_letters_outside_ascii() {
    assert_eq!(scan(String::from("a\tb")), Err(LexicalError { character: '\t', position: 1 }));
    assert_eq!(scan(String::from("a_b")), Err(LexicalError { character: '_', position: 1 }));
    assert_eq!(scan(String::from("é")), Err(LexicalError { character: 'é', position: 0 }));
}

#[test]
fn counts_error_positions_in_characters() {
    assert_eq!(
        scan(String::from("# é è\n  ?")),
        Err(LexicalError { character: '?', position: 8 })
    );
}

#[test]
fn a_comment_runs_to_the_end_of_its_line() {
    let tokens = scan(String::from("a # b c $ \n d #e")).unwrap();
    assert_eq!(tokens, vec![name("a"), name("d"), plain(TokenType::TokEof)]);
}

#[test]
fn blanks_and_comments_between_tokens_change_nothing() {
    let tight = scan(String::from("def f(a,b){return a<=b}")).unwrap();
    let loose = scan(String::from(
        "  def   f ( # the name\n a ,\n\n b ) \n{ return # what comes back\n a <= b } # done",
    ))
    .unwrap();
    assert_eq!(tight, loose);
}

#[test]
fn rescanning_the_written_tokens_gives_the_tokens_back() {
    let tokens = scan(String::from("def f(x1,y){z=x1*2.50>=y return g(z)}")).unwrap();
    let written: Vec<String> = tokens[..tokens.len() - 1]
        .iter()
        .map(|t| match t.token_type {
            TokenType::TokIdentifier => t.identifier.clone(),
            TokenType::TokNumber => t.number.clone(),
            TokenType::TokDef => String::from("def"),
            TokenType::TokReturn => String::from("return"),
            TokenType::TokLpar => String::from("("),
            TokenType::TokRpar => String::from(")"),
            TokenType::TokLbrak => String::from("{"),
            TokenType::TokRbrak => String::from("}"),
            TokenType::TokComma => String::from(","),
            TokenType::TokEquals => String::from("="),
            TokenType::TokMul => String::from("*"),
            TokenType::TokGte => String::from(">="),
            _ => unreachable!(),
        })
        .collect();
    assert_eq!(scan(written.join(" ")).unwrap(), tokens);
}

#[test]
fn the_scanner_appends_to_the_tokens_it_holds() {
    let mut scanner = Scanner::new(String::from("a b"));
    assert_eq!(scanner.get_token(), Ok(Some(name("a"))));
    assert_eq!(scanner.scan_tokens(), Ok(()));
    assert_eq!(scanner.get_tokens(), vec![name("b"), plain(TokenType::TokEof)]);
}

#[test]
fn get_token_yields_none_once_only_trivia_is_left() {
    let mut scanner = Scanner::new(String::from("a  # rest"));
    assert_eq!(scanner.get_token(), Ok(Some(name("a"))));
    assert_eq!(scanner.get_token(), Ok(None));
    assert_eq!(scanner.get_token(), Ok(None));
}

#[test]
fn a_failed_scan_leaves_the_gathered_tokens_alone() {
    let mut scanner = Scanner::new(String::from("a b ? c"));
    assert_eq!(scanner.scan_tokens(), Err(LexicalError { character: '?', position: 4 }));
    assert_eq!(scanner.get_tokens(), Vec::<Token>::new());
}

fn every_kind() -> Vec<TokenType> {
    vec![
        TokenType::TokEof,
        TokenType::TokDef,
        TokenType::TokExtern,
        TokenType::TokIf,
        TokenType::TokElse,
        TokenType::TokReturn,
        TokenType::TokIdentifier,
        TokenType::TokNumber,
        TokenType::TokRpar,
        TokenType::TokLpar,
        TokenType::TokRbrak,
        TokenType::TokLbrak,
        TokenType::TokComma,
        TokenType::TokEquals,
        TokenType::TokLt,
        TokenType::TokGt,
        TokenType::TokLte,
        TokenType::TokGte,
        TokenType::TokAdd,
        TokenType::TokSub,
        TokenType::TokMul,
        TokenType::TokDiv,
        TokenType::TokMod,
    ]
}

#[test]
fn renders_tokens_for_diagnostics() {
    assert_eq!(name("total").to_string(), "total");
    assert_eq!(number("1.50").to_string(), "1.50");
    assert_eq!(plain(TokenType::TokLt).to_string(), "less_than");
    assert_eq!(plain(TokenType::TokGt).to_string(), "greater_than");
    assert_eq!(plain(TokenType::TokLte).to_string(), "less_than_equal");
    assert_eq!(plain(TokenType::TokGte).to_string(), "greater_than_equal");
    assert_eq!(plain(TokenType::TokLbrak).to_string(), "left_bracket");
    assert_eq!(plain(TokenType::TokRbrak).to_string(), "right_bracket");
    assert_eq!(plain(TokenType::TokLpar).to_string(), "left_parenthesis");
    assert_eq!(plain(TokenType::TokRpar).to_string(), "right_parenthesis");
    assert_eq!(plain(TokenType::TokIf).to_string(), "if");
    assert_eq!(plain(TokenType::TokAdd).to_string(), "plus_sign");
    assert_eq!(plain(TokenType::TokEof).to_string(), "end_of_input");
}

#[test]
fn names_every_kind() {
    let names: Vec<String> = every_kind().into_iter().map(|kind| kind.to_string()).collect();
    assert_eq!(
        names,
        vec![
            String::from("end_of_input"),
            String::from("def"),
            ["ex", "tern"].concat(),
            String::from("if"),
            String::from("else"),
            String::from("return"),
            String::from("an_identifier"),
            String::from("a_number"),
            String::from("right_parenthesis"),
            String::from("left_parenthesis"),
            String::from("right_bracket"),
            String::from("left_bracket"),
            String::from("comma_sign"),
            String::from("equals_sign"),
            String::from("less_than"),
            String::from("greater_than"),
            String::from("less_than_equal"),
            String::from("greater_than_equal"),
            String::from("plus_sign"),
            String::from("minus_sign"),
            String::from("times_sign"),
            String::from("division_sign"),
            String::from("percent_sign"),
        ]
    );
}

#[test]
fn no_two_kinds_share_a_name() {
    let kinds = every_kind();
    for (i, kind) in kinds.iter().enumerate() {
        for other in kinds[i + 1..].iter() {
            assert_ne!(kind.to_string(), other.to_string());
        }
    }
}

#[test]
fn a_token_without_payload_renders_as_the_name_of_its_kind() {
    for kind in every_kind() {
        if kind != TokenType::TokIdentifier && kind != TokenType::TokNumber {
            assert_eq!(plain(kind).to_string(), kind.to_string());
        }
    }
}

#[test]
fn the_rendering_of_a_scanned_token_tells_its_kind() {
    let source = format!(
        "def {} if else return name 12.5 ( ) {{ }} , = < > <= >= + - * / %",
        ["ex", "tern"].concat()
    );
    let tokens = scan(source).unwrap();
    assert_eq!(tokens.len(), 23);
    for (i, token) in tokens.iter().enumerate() {
        for other in tokens[i + 1..].iter() {
            assert_ne!(token.to_string(), other.to_string());
        }
        let keyword = matches!(
            token.token_type,
            TokenType::TokDef
                | TokenType::TokExtern
                | TokenType::TokIf
                | TokenType::TokElse
                | TokenType::TokReturn
        );
        let payload = matches!(token.token_type, TokenType::TokIdentifier | TokenType::TokNumber);
        if !keyword && !payload {
            assert!(token.to_string().contains('_'));
        }
    }
}

#[test]
fn duplicate_copies_a_token() {
    let token = name("copy");
    assert_eq!(token.duplicate(), token);
    assert_eq!(Token::plain(TokenType::TokComma), plain(TokenType::TokComma));
}
