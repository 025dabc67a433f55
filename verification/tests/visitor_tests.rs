use toylang::parser::{Expression, Parser, Program, TokenStream};
use toylang::print_ast::PrintAST;
use toylang::scanner::scan;
use toylang::visitor::{ASTVisitor, Walkable};

fn program(source: &str) -> Program {
    Parser::new(scan(String::from(source)).unwrap()).parse().unwrap()
}

fn printed(source: &str) -> Vec<String> {
    let mut printer = PrintAST::new(0);
    program(source).accept(&mut printer);
    printer.into_lines()
}

#[test]
fn visits_a_function_with_a_binary_return_in_pre_order() {
    assert_eq!(
        printed("def add(x, y) { return x + y }"),
        vec![
            " Program",
            "     Function",
            "         Function Declaration",
            "             Name: add",
            "             Args: [\"x\", \"y\"]",
            "         Scope",
            "             ReturnScopeStatement",
            "                 BinaryExpression",
            "                     IdentifierExpression",
            "                     Name: x",
            "                     IdentifierExpression",
            "                     Name: y",
        ]
    );
}

#[test]
fn returns_to_the_depth_of_the_owner_after_the_last_owned_node() {
    assert_eq!(
        printed("def f() { a = 1 + 2 * 3 return g(a, 4) } def h(x) { }"),
        vec![
            " Program",
            "     Function",
            "         Function Declaration",
            "             Name: f",
            "             Args: []",
            "         Scope",
            "             DefinitionScopeStatement",
            "                 Lvalue Identifier: a",
            "                 BinaryExpression",
            "                     NumberLiteralExpr",
            "                         Value: 1",
            "                     BinaryExpression",
            "                         NumberLiteralExpr",
            "                             Value: 2",
            "                         NumberLiteralExpr",
            "                             Value: 3",
            "             ReturnScopeStatement",
            "                 FunctionCallExpression",
            "                     Name: g",
            "                     IdentifierExpression",
            "                     Name: a",
            "                     NumberLiteralExpr",
            "                         Value: 4",
            "     Function",
            "         Function Declaration",
            "             Name: h",
            "             Args: [\"x\"]",
            "         Scope",
        ]
    );
}

#[test]
fn prints_both_scopes_of_a_conditional() {
    assert_eq!(
        printed("def f(a) { if a { } else { return 1 } return 2 }"),
        vec![
            " Program",
            "     Function",
            "         Function Declaration",
            "             Name: f",
            "             Args: [\"a\"]",
            "         Scope",
            "             ConditionalScopeStatement",
            "                 IdentifierExpression",
            "                 Name: a",
            "                 Scope",
            "                 Scope",
            "                     ReturnScopeStatement",
            "                         NumberLiteralExpr",
            "                             Value: 1",
            "             ReturnScopeStatement",
            "                 NumberLiteralExpr",
            "                     Value: 2",
        ]
    );
}

#[test]
fn prints_an_empty_program() {
    assert_eq!(printed(""), vec![" Program"]);
}

#[test]
fn starts_at_the_depth_it_is_given() {
    let expression =
        Expression::visit(&mut TokenStream::new(scan(String::from("a < 1")).unwrap())).unwrap();
    let mut printer = PrintAST::new(2);
    assert_eq!(printer.call_depth(), 2);
    assert_eq!(printer.get_padding(), 8);
    expression.accept(&mut printer);
    assert_eq!(
        printer.lines(),
        &vec![
            "         BinaryExpression",
            "             IdentifierExpression",
            "             Name: a",
            "             NumberLiteralExpr",
            "                 Value: 1",
        ]
    );
    assert_eq!(printer.get_padding(), 8);
    assert_eq!(printer.call_depth(), 2);
}

#[test]
fn the_padding_follows_the_open_nodes() {
    let program = program("def f() { }");
    let mut printer = PrintAST::new(0);
    assert_eq!(printer.get_padding(), 0);
    printer.visit_program(&program);
    assert_eq!(printer.get_padding(), 4);
    printer.visit_function(&program.functions[0]);
    assert_eq!(printer.get_padding(), 8);
    printer.visit_function_declaration(&program.functions[0].declaration);
    assert_eq!(printer.get_padding(), 8);
    printer.visit_scope(&program.functions[0].body);
    assert_eq!(printer.get_padding(), 0);
}

#[test]
fn a_node_alone_is_visited_without_what_it_owns() {
    let program = program("def f() { return 1 }");
    let mut printer = PrintAST::new(0);
    printer.visit_scope(&program.functions[0].body);
    assert_eq!(printer.into_lines(), vec![" Scope"]);
}
