use toylang::parser::{
    BinaryExpression, ConditionalScopeStatement, DefinitionScopeStatement, Expression, Function,
    FunctionCallExpression, FunctionDeclaration, IdentifierExpression, NumberLiteralExpression,
    Parser, Program, ReturnScopeStatement, Scope, ScopeStatement, SyntaxError, TokenStream,
};
use toylang::scanner::{scan, Token, TokenType};

fn tokens(source: &str) -> Vec<Token> {
    scan(String::from(source)).unwrap()
}

fn parse(source: &str) -> Result<Program, SyntaxError> {
    Parser::new(tokens(source)).parse()
}

fn parse_expression(source: &str) -> Result<Expression, SyntaxError> {
    Expression::visit(&mut TokenStream::new(tokens(source)))
}

fn plain(kind: TokenType) -> Token {
    Token::new(kind, String::new(), String::new())
}

fn name_token(text: &str) -> Token {
    Token::new(TokenType::TokIdentifier, String::from(text), String::new())
}

fn id(name: &str) -> Expression {
    Expression::Identifier(IdentifierExpression { name: String::from(name) })
}

fn num(value: &str) -> Expression {
    Expression::NumberLiteral(NumberLiteralExpression { value: String::from(value) })
}

fn bin(bin_op: TokenType, lhs: Expression, rhs: Expression) -> Expression {
    Expression::Binary(BinaryExpression { bin_op, lhs: Box::new(lhs), rhs: Box::new(rhs) })
}

fn call(name: &str, args: Vec<Expression>) -> Expression {
    Expression::FunctionCall(FunctionCallExpression { name: String::from(name), args })
}

fn ret(return_expr: Expression) -> ScopeStatement {
    ScopeStatement::Return(ReturnScopeStatement { return_expr })
}

fn def(name: &str, rvalue_expression: Expression) -> ScopeStatement {
    ScopeStatement::Definition(DefinitionScopeStatement {
        lvalue_identifier: String::from(name),
        rvalue_expression,
    })
}

fn function(name: &str, args: &[&str], blocks: Vec<ScopeStatement>) -> Function {
    Function {
        declaration: FunctionDeclaration {
            name: String::from(name),
            args: args.iter().map(|a| String::from(*a)).collect(),
        },
        body: Scope { blocks },
    }
}

#[test]
fn parses_the_end_to_end_example() {
    let tokens = tokens("def add(x, y) { return x + y }");
    assert_eq!(
        tokens,
        vec![
            plain(TokenType::TokDef),
            name_token("add"),
            plain(TokenType::TokLpar),
            name_token("x"),
            plain(TokenType::TokComma),
            name_token("y"),
            plain(TokenType::TokRpar),
            plain(TokenType::TokLbrak),
            plain(TokenType::TokReturn),
            name_token("x"),
            plain(TokenType::TokAdd),
            name_token("y"),
            plain(TokenType::TokRbrak),
            plain(TokenType::TokEof),
        ]
    );
    let program = Parser::new(tokens).parse().unwrap();
    assert_eq!(
        program,
        Program {
            functions: vec![function(
                "add",
                &["x", "y"],
                vec![ret(bin(TokenType::TokAdd, id("x"), id("y")))]
            )]
        }
    );
}

#[test]
fn parses_an_empty_parameter_list() {
    let program = parse("def f() { return 1 }").unwrap();
    assert_eq!(program.functions.len(), 1);
    assert_eq!(program.functions[0].declaration.name, "f");
    assert_eq!(program.functions[0].declaration.args, Vec::<String>::new());
    assert_eq!(program.functions[0].body, Scope { blocks: vec![ret(num("1"))] });
}

#[test]
fn keeps_parameters_in_the_order_written() {
    let program = parse("def f(a, b) { return a }").unwrap();
    assert_eq!(program.functions[0].declaration.args, vec!["a", "b"]);
}

#[test]
fn does_not_reject_a_parameter_named_twice() {
    let program = parse("def f(a, a) { }").unwrap();
    assert_eq!(program.functions[0].declaration.args, vec!["a", "a"]);
}

#[test]
fn rejects_a_trailing_comma_in_the_parameter_list() {
    assert_eq!(
        parse("def f(a,) { }"),
        Err(SyntaxError::Expected {
            expected: TokenType::TokIdentifier,
            actual: Some(plain(TokenType::TokRpar)),
            position: 5,
        })
    );
}

#[test]
fn rejects_parameters_without_a_comma_between_them() {
    assert_eq!(
        parse("def f(a b) { }"),
        Err(SyntaxError::Expected {
            expected: TokenType::TokComma,
            actual: Some(name_token("b")),
            position: 4,
        })
    );
}

#[test]
fn a_tighter_operator_behind_takes_the_rest_as_right_hand_side() {
    assert_eq!(
        parse_expression("a + b * c"),
        Ok(bin(TokenType::TokAdd, id("a"), bin(TokenType::TokMul, id("b"), id("c"))))
    );
}

#[test]
fn a_looser_operator_behind_joins_to_the_left() {
    assert_eq!(
        parse_expression("a * b + c"),
        Ok(bin(TokenType::TokAdd, bin(TokenType::TokMul, id("a"), id("b")), id("c")))
    );
}

#[test]
fn equal_operators_join_to_the_left() {
    assert_eq!(
        parse_expression("a - b - c"),
        Ok(bin(TokenType::TokSub, bin(TokenType::TokSub, id("a"), id("b")), id("c")))
    );
}

#[test]
fn the_right_hand_side_takes_everything_that_is_left() {
    assert_eq!(
        parse_expression("a + b * c - d"),
        Ok(bin(
            TokenType::TokAdd,
            id("a"),
            bin(TokenType::TokSub, bin(TokenType::TokMul, id("b"), id("c")), id("d"))
        ))
    );
}

#[test]
fn orders_the_nine_operators_by_the_table() {
    let ascending = [
        (TokenType::TokAdd, "+"),
        (TokenType::TokSub, "-"),
        (TokenType::TokMul, "*"),
        (TokenType::TokDiv, "/"),
        (TokenType::TokMod, "%"),
        (TokenType::TokGt, ">"),
        (TokenType::TokGte, ">="),
        (TokenType::TokLt, "<"),
        (TokenType::TokLte, "<="),
    ];
    for (i, (low, low_text)) in ascending.iter().enumerate() {
        for (high, high_text) in ascending[i + 1..].iter() {
            assert_eq!(
                parse_expression(&format!("a {} b {} c", low_text, high_text)),
                Ok(bin(*low, id("a"), bin(*high, id("b"), id("c"))))
            );
            assert_eq!(
                parse_expression(&format!("a {} b {} c", high_text, low_text)),
                Ok(bin(*low, bin(*high, id("a"), id("b")), id("c")))
            );
        }
    }
}

#[test]
fn gives_each_operator_its_precedence() {
    let table = [
        (TokenType::TokAdd, 1000),
        (TokenType::TokSub, 2000),
        (TokenType::TokMul, 3000),
        (TokenType::TokDiv, 4000),
        (TokenType::TokMod, 5000),
        (TokenType::TokGt, 6000),
        (TokenType::TokGte, 7000),
        (TokenType::TokLt, 8000),
        (TokenType::TokLte, 9000),
        (TokenType::TokEquals, -1),
        (TokenType::TokIdentifier, -1),
    ];
    for (kind, precedence) in table {
        assert_eq!(Expression::get_bin_op_precedence(&plain(kind)), precedence);
    }
}

#[test]
fn parses_calls_with_and_without_arguments() {
    assert_eq!(parse_expression("f()"), Ok(call("f", vec![])));
    assert_eq!(
        parse_expression("f(a, 2, g(b) + 1)"),
        Ok(call(
            "f",
            vec![id("a"), num("2"), bin(TokenType::TokAdd, call("g", vec![id("b")]), num("1"))]
        ))
    );
}

#[test]
fn an_identifier_is_a_call_only_in_front_of_a_parenthesis() {
    let mut stream = TokenStream::new(tokens("f + g(1)"));
    assert_eq!(Expression::handle_lhs(&mut stream), Ok(id("f")));
    assert_eq!(stream.position(), 1);
}

#[test]
fn rejects_a_trailing_comma_in_an_argument_list() {
    assert_eq!(
        parse_expression("f(a,)"),
        Err(SyntaxError::UnexpectedInExpression {
            actual: Some(plain(TokenType::TokRpar)),
            position: 4,
        })
    );
}

#[test]
fn rejects_an_expression_that_starts_with_an_operator() {
    assert_eq!(
        parse_expression("* a"),
        Err(SyntaxError::UnexpectedInExpression {
            actual: Some(plain(TokenType::TokMul)),
            position: 0,
        })
    );
}

#[test]
fn rejects_an_operator_without_right_hand_side() {
    assert_eq!(
        parse_expression("a +"),
        Err(SyntaxError::UnexpectedInExpression {
            actual: Some(plain(TokenType::TokEof)),
            position: 2,
        })
    );
}

#[test]
fn reports_an_exhausted_stream_where_an_expression_is_due() {
    let mut stream = TokenStream::new(vec![name_token("a"), plain(TokenType::TokAdd)]);
    assert_eq!(
        Expression::visit(&mut stream),
        Err(SyntaxError::UnexpectedInExpression { actual: None, position: 2 })
    );
    assert_eq!(stream.position(), 2);
}

#[test]
fn an_expression_ends_in_front_of_what_is_no_operator() {
    let mut stream = TokenStream::new(tokens("a + 1 b"));
    assert_eq!(Expression::visit(&mut stream), Ok(bin(TokenType::TokAdd, id("a"), num("1"))));
    assert_eq!(stream.position(), 3);
}

#[test]
fn parses_definitions_and_returns_in_order() {
    let program = parse("def f(a) { b = a * 2 c = g(b) return c }").unwrap();
    assert_eq!(
        program.functions[0].body.blocks,
        vec![
            def("b", bin(TokenType::TokMul, id("a"), num("2"))),
            def("c", call("g", vec![id("b")])),
            ret(id("c")),
        ]
    );
}

#[test]
fn parses_a_conditional_without_else() {
    let program = parse("def f(a) { if a < 1 { return 0 } return a }").unwrap();
    assert_eq!(
        program.functions[0].body.blocks,
        vec![
            ScopeStatement::Conditional(ConditionalScopeStatement {
                condition: bin(TokenType::TokLt, id("a"), num("1")),
                body: Scope { blocks: vec![ret(num("0"))] },
                alternative: None,
            }),
            ret(id("a")),
        ]
    );
}

#[test]
fn parses_a_conditional_with_else_and_nested_scopes() {
    let program = parse("def f(a) { if a { if b { } else { c = 1 } } else { return 2 } }").unwrap();
    assert_eq!(
        program.functions[0].body.blocks,
        vec![ScopeStatement::Conditional(ConditionalScopeStatement {
            condition: id("a"),
            body: Scope {
                blocks: vec![ScopeStatement::Conditional(ConditionalScopeStatement {
                    condition: id("b"),
                    body: Scope { blocks: vec![] },
                    alternative: Some(Scope { blocks: vec![def("c", num("1"))] }),
                })]
            },
            alternative: Some(Scope { blocks: vec![ret(num("2"))] }),
        })]
    );
}

#[test]
fn parses_several_functions_in_the_order_declared() {
    let program = parse("def f() { } def g(x) { return x } def h() { }").unwrap();
    let names: Vec<&str> =
        program.functions.iter().map(|f| f.declaration.name.as_str()).collect();
    assert_eq!(names, vec!["f", "g", "h"]);
}

#[test]
fn parses_the_empty_source_to_the_empty_program() {
    assert_eq!(parse(""), Ok(Program { functions: vec![] }));
    assert_eq!(Parser::new(vec![]).parse(), Ok(Program { functions: vec![] }));
}

#[test]
fn rejects_a_token_between_functions_that_is_not_def() {
    assert_eq!(
        parse("def f() { } x"),
        Err(SyntaxError::InvalidToken { actual: name_token("x"), position: 6 })
    );
    assert_eq!(
        parse("return 1"),
        Err(SyntaxError::InvalidToken { actual: plain(TokenType::TokReturn), position: 0 })
    );
}

#[test]
fn rejects_a_token_that_starts_no_statement() {
    assert_eq!(
        parse("def f() { 1 }"),
        Err(SyntaxError::UnexpectedInScope {
            actual: Some(Token::new(TokenType::TokNumber, String::new(), String::from("1"))),
            position: 5,
        })
    );
}

#[test]
fn rejects_a_scope_that_is_not_closed() {
    assert_eq!(
        parse("def f() { return 1"),
        Err(SyntaxError::UnexpectedInScope { actual: Some(plain(TokenType::TokEof)), position: 7 })
    );
    let mut open = tokens("def f() { return 1");
    open.pop();
    assert_eq!(
        Parser::new(open).parse(),
        Err(SyntaxError::Expected { expected: TokenType::TokRbrak, actual: None, position: 7 })
    );
}

#[test]
fn rejects_a_declaration_without_name_parenthesis_or_body() {
    assert_eq!(
        parse("def (a) { }"),
        Err(SyntaxError::Expected {
            expected: TokenType::TokIdentifier,
            actual: Some(plain(TokenType::TokLpar)),
            position: 1,
        })
    );
    assert_eq!(
        parse("def f a) { }"),
        Err(SyntaxError::Expected {
            expected: TokenType::TokLpar,
            actual: Some(name_token("a")),
            position: 2,
        })
    );
    assert_eq!(
        parse("def f() return 1"),
        Err(SyntaxError::Expected {
            expected: TokenType::TokLbrak,
            actual: Some(plain(TokenType::TokReturn)),
            position: 4,
        })
    );
}

#[test]
fn rejects_a_definition_without_equals_sign() {
    assert_eq!(
        parse("def f() { a 1 }"),
        Err(SyntaxError::Expected {
            expected: TokenType::TokEquals,
            actual: Some(Token::new(TokenType::TokNumber, String::new(), String::from("1"))),
            position: 6,
        })
    );
}

#[test]
fn the_parser_stops_at_the_end_of_input_token() {
    let mut parser = Parser::new(tokens("def f() { }"));
    assert!(parser.parse().is_ok());
    assert_eq!(parser.parse(), Ok(Program { functions: vec![] }));
}

#[test]
fn the_stream_hands_out_tokens_once_and_in_order() {
    let mut stream = TokenStream::new(tokens("a ("));
    assert_eq!(stream.len(), 3);
    assert_eq!(stream.get_current_token(), Some(&name_token("a")));
    assert_eq!(stream.peek_next_token(), Some(&plain(TokenType::TokLpar)));
    assert!(stream.is_current(TokenType::TokIdentifier));
    assert!(stream.is_next(TokenType::TokLpar));
    assert_eq!(stream.consume(), Some(name_token("a")));
    assert_eq!(stream.position(), 1);
    assert_eq!(stream.consume(), Some(plain(TokenType::TokLpar)));
    assert_eq!(stream.peek_next_token(), None);
    assert_eq!(stream.consume(), Some(plain(TokenType::TokEof)));
    assert_eq!(stream.get_current_token(), None);
    assert_eq!(stream.consume(), None);
    assert_eq!(stream.position(), 3);
}

#[test]
fn expecting_a_kind_does_not_move_the_cursor() {
    let stream = TokenStream::new(tokens("a"));
    assert_eq!(stream.expected_current_token(TokenType::TokIdentifier), Ok(()));
    assert_eq!(
        stream.expected_current_token(TokenType::TokLt),
        Err(SyntaxError::Expected {
            expected: TokenType::TokLt,
            actual: Some(name_token("a")),
            position: 0,
        })
    );
    assert_eq!(stream.position(), 0);
    let empty = TokenStream::new(vec![]);
    assert_eq!(
        empty.expected_current_token(TokenType::TokLt),
        Err(SyntaxError::Expected { expected: TokenType::TokLt, actual: None, position: 0 })
    );
}

#[test]
fn taking_a_token_checks_its_kind_first() {
    let mut stream = TokenStream::new(tokens("a"));
    assert!(stream.take(TokenType::TokNumber).is_err());
    assert_eq!(stream.position(), 0);
    assert_eq!(stream.take(TokenType::TokIdentifier), Ok(name_token("a")));
    assert_eq!(stream.position(), 1);
}

#[test]
fn tells_binary_operators_from_other_tokens() {
    let operators = "+ - * / % > >= < <=";
    let mut stream = TokenStream::new(tokens(operators));
    for _ in 0..9 {
        assert!(stream.is_current_token_binary_operator());
        stream.consume();
    }
    assert!(!stream.is_current_token_binary_operator());
    let mut others = TokenStream::new(tokens("= ( ) { } , a 1 def if else return"));
    for _ in 0..13 {
        assert!(!others.is_current_token_binary_operator());
        others.consume();
    }
    assert!(!others.is_current_token_binary_operator());
}

#[test]
fn parses_single_nodes_on_their_own() {
    assert_eq!(
        NumberLiteralExpression::visit(&mut TokenStream::new(tokens("7.5"))),
        Ok(NumberLiteralExpression { value: String::from("7.5") })
    );
    assert_eq!(
        IdentifierExpression::visit(&mut TokenStream::new(tokens("seven"))),
        Ok(IdentifierExpression { name: String::from("seven") })
    );
    assert!(NumberLiteralExpression::visit(&mut TokenStream::new(tokens("seven"))).is_err());
    assert!(IdentifierExpression::visit(&mut TokenStream::new(tokens("7"))).is_err());
    assert_eq!(
        ReturnScopeStatement::visit(&mut TokenStream::new(tokens("return a"))),
        Ok(ReturnScopeStatement { return_expr: id("a") })
    );
    assert_eq!(
        ScopeStatement::visit(&mut TokenStream::new(tokens("a = 1"))),
        Ok(def("a", num("1")))
    );
    assert_eq!(
        ScopeStatement::visit(&mut TokenStream::new(vec![])),
        Err(SyntaxError::UnexpectedInScope { actual: None, position: 0 })
    );
    assert_eq!(
        FunctionDeclaration::visit(&mut TokenStream::new(tokens("def f(a)"))),
        Ok(FunctionDeclaration { name: String::from("f"), args: vec![String::from("a")] })
    );
    assert_eq!(
        Function::visit(&mut TokenStream::new(tokens("def f() { }"))),
        Ok(function("f", &[], vec![]))
    );
}

#[test]
fn continues_an_expression_from_a_given_left_hand_side() {
    let mut stream = TokenStream::new(tokens("* b + c"));
    assert_eq!(
        Expression::handle_bin_op_rhs(&mut stream, id("a")),
        Ok(bin(TokenType::TokAdd, bin(TokenType::TokMul, id("a"), id("b")), id("c")))
    );
    let mut nothing = TokenStream::new(tokens(") b"));
    assert_eq!(Expression::handle_bin_op_rhs(&mut nothing, id("a")), Ok(id("a")));
    assert_eq!(nothing.position(), 0);
}

#[test]
fn words_its_diagnostics() {
    let mismatch = parse("def f(a,) { }").unwrap_err();
    assert_eq!(mismatch.message(), "expected an_identifier, actual right_parenthesis");
    assert_eq!(mismatch.position(), 5);
    let bracket = parse("def f() return").unwrap_err();
    assert_eq!(bracket.message(), "expected left_bracket, actual return");
    let number = NumberLiteralExpression::visit(&mut TokenStream::new(tokens("+"))).unwrap_err();
    assert_eq!(number.message(), "expected a_number, actual plus_sign");
    let equals = parse("def f() { a 1.50 }").unwrap_err();
    assert_eq!(equals.message(), "expected equals_sign, actual 1.50");
    let end = parse("def f(").unwrap_err();
    assert_eq!(end.message(), "expected an_identifier, actual end_of_input");
    let missing =
        TokenStream::new(vec![]).expected_current_token(TokenType::TokRpar).unwrap_err();
    assert_eq!(missing.message(), "Expected token type right_parenthesis but didn't find it");
    assert_eq!(parse("x").unwrap_err().message(), "Invalid token found");
    assert_eq!(parse("def f() { 1 }").unwrap_err().message(), "Found unexpected token in scope");
    assert_eq!(
        ScopeStatement::visit(&mut TokenStream::new(vec![])).unwrap_err().message(),
        "Expected token in scope but didn't find one"
    );
    assert_eq!(
        parse_expression("+").unwrap_err().message(),
        "Received unexpected token type in expression"
    );
    assert_eq!(
        Expression::visit(&mut TokenStream::new(vec![])).unwrap_err().message(),
        "Expected token in expression but didn't find one"
    );
}
