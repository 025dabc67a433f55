//! The grammar, as functions from a token sequence and a position to what is
//! parsed there.
//!
//! Each production yields the view of the node that starts at the position
//! together with the number of tokens the node takes up, or the error of the
//! first token that does not fit. Tokens are read strictly from left to
//! right, so the error is the one a single forward pass meets first.

use crate::parser::{
    expect, kind_at, token_at, ExpressionView, FunctionDeclarationView, FunctionView,
    ScopeStatementView, SyntaxErrorView,
};
use crate::scanner::{TokenType, TokenView};
use vstd::prelude::*;

verus! {

/// The number of tokens at or after `position`.
pub open spec fn remaining(tokens: Seq<TokenView>, position: nat) -> nat {
    if position <= tokens.len() {
        (tokens.len() - position) as nat
    } else {
        0
    }
}

/// How tightly a binary operator binds; -1 for every other kind.
pub open spec fn precedence(kind: TokenType) -> int {
    match kind {
        TokenType::TokAdd => 1000,
        TokenType::TokSub => 2000,
        TokenType::TokMul => 3000,
        TokenType::TokDiv => 4000,
        TokenType::TokMod => 5000,
        TokenType::TokGt => 6000,
        TokenType::TokGte => 7000,
        TokenType::TokLt => 8000,
        TokenType::TokLte => 9000,
        _ => -1,
    }
}

/// Tells whether a binary operator stands at `position`.
pub open spec fn operator_at(tokens: Seq<TokenView>, position: nat) -> bool {
    kind_at(tokens, position) matches Some(kind) && kind.is_binary_operator()
}

/// A primary: a number, an identifier, or a call, which is an identifier
/// directly followed by a parenthesised argument list.
pub open spec fn primary(tokens: Seq<TokenView>, position: nat) -> Result<
    (ExpressionView, nat),
    SyntaxErrorView,
>
    decreases remaining(tokens, position), 0nat,
{
    match token_at(tokens, position) {
        None => Err(SyntaxErrorView::UnexpectedInExpression { actual: None, position }),
        Some(token) => match token.token_type {
            TokenType::TokNumber => Ok((ExpressionView::NumberLiteral { value: token.number }, 1)),
            TokenType::TokIdentifier => if kind_at(tokens, position + 1) == Some(
                TokenType::TokLpar,
            ) {
                match arguments(tokens, position + 2) {
                    Ok((args, n)) => Ok(
                        (ExpressionView::FunctionCall { name: token.identifier, args }, 2 + n),
                    ),
                    Err(e) => Err(e),
                }
            } else {
                Ok((ExpressionView::Identifier { name: token.identifier }, 1))
            },
            _ => Err(
                SyntaxErrorView::UnexpectedInExpression { actual: Some(token), position },
            ),
        },
    }
}

/// The arguments of a call from behind the opening parenthesis up to and
/// including the closing one: nothing, or expressions separated by commas.
pub open spec fn arguments(tokens: Seq<TokenView>, position: nat) -> Result<
    (Seq<ExpressionView>, nat),
    SyntaxErrorView,
>
    decreases remaining(tokens, position), 3nat,
{
    if kind_at(tokens, position) == Some(TokenType::TokRpar) {
        Ok((Seq::empty(), 1))
    } else {
        argument_list(tokens, position)
    }
}

/// One or more expressions separated by commas, and the closing parenthesis.
pub open spec fn argument_list(tokens: Seq<TokenView>, position: nat) -> Result<
    (Seq<ExpressionView>, nat),
    SyntaxErrorView,
>
    decreases remaining(tokens, position), 2nat,
{
    match expression(tokens, position) {
        Err(e) => Err(e),
        Ok((first, n)) => if kind_at(tokens, position + n) == Some(TokenType::TokRpar) {
            Ok((seq![first], n + 1))
        } else {
            match expect(tokens, position + n, TokenType::TokComma) {
                Err(e) => Err(e),
                Ok(_) => match argument_list(tokens, position + n + 1) {
                    Err(e) => Err(e),
                    Ok((rest, m)) => Ok((seq![first] + rest, n + 1 + m)),
                },
            }
        },
    }
}

/// What follows the first primary of an expression: as many pairs of a
/// binary operator and a primary as there are.
pub open spec fn operands(tokens: Seq<TokenView>, position: nat) -> Result<
    (Seq<(TokenType, ExpressionView)>, nat),
    SyntaxErrorView,
>
    decreases remaining(tokens, position), 0nat,
{
    if operator_at(tokens, position) {
        match primary(tokens, position + 1) {
            Err(e) => Err(e),
            Ok((operand, n)) => match operands(tokens, position + 1 + n) {
                Err(e) => Err(e),
                Ok((rest, m)) => Ok(
                    (seq![(tokens[position as int].token_type, operand)] + rest, 1 + n + m),
                ),
            },
        }
    } else {
        Ok((Seq::empty(), 0))
    }
}

/// The tree into which `lhs` and the pairs that follow it are combined.
///
/// Pairs are taken from the left. Where the operator behind a pair binds
/// tighter than the pair's own, everything from the pair's operand on becomes
/// the right-hand side, combined by the same rule; otherwise the pair is
/// joined to `lhs` at once and becomes the left-hand side of what follows.
pub open spec fn climb(lhs: ExpressionView, pairs: Seq<(TokenType, ExpressionView)>) -> ExpressionView
    decreases pairs.len(),
{
    if pairs.len() == 0 {
        lhs
    } else {
        let (bin_op, operand) = pairs[0];
        if pairs.len() > 1 && precedence(bin_op) < precedence(pairs[1].0) {
            ExpressionView::Binary {
                bin_op,
                lhs: Box::new(lhs),
                rhs: Box::new(climb(operand, pairs.skip(1))),
            }
        } else {
            climb(
                ExpressionView::Binary { bin_op, lhs: Box::new(lhs), rhs: Box::new(operand) },
                pairs.skip(1),
            )
        }
    }
}

/// What an expression that starts with `lhs` goes on to be: `lhs` combined by
/// [`climb`] with the operator pairs at `position`.
pub open spec fn continued(tokens: Seq<TokenView>, position: nat, lhs: ExpressionView) -> Result<
    (ExpressionView, nat),
    SyntaxErrorView,
> {
    match operands(tokens, position) {
        Err(e) => Err(e),
        Ok((pairs, n)) => Ok((climb(lhs, pairs), n)),
    }
}

/// An expression: a primary and what it goes on to be.
pub open spec fn expression(tokens: Seq<TokenView>, position: nat) -> Result<
    (ExpressionView, nat),
    SyntaxErrorView,
>
    decreases remaining(tokens, position), 1nat,
{
    match primary(tokens, position) {
        Err(e) => Err(e),
        Ok((first, n)) => match operands(tokens, position + n) {
            Err(e) => Err(e),
            Ok((pairs, m)) => Ok((climb(first, pairs), n + m)),
        },
    }
}

/// A number literal on its own.
pub open spec fn number(tokens: Seq<TokenView>, position: nat) -> Result<
    (ExpressionView, nat),
    SyntaxErrorView,
> {
    match expect(tokens, position, TokenType::TokNumber) {
        Err(e) => Err(e),
        Ok(_) => Ok((ExpressionView::NumberLiteral { value: tokens[position as int].number }, 1)),
    }
}

/// An identifier on its own.
pub open spec fn identifier(tokens: Seq<TokenView>, position: nat) -> Result<
    (ExpressionView, nat),
    SyntaxErrorView,
> {
    match expect(tokens, position, TokenType::TokIdentifier) {
        Err(e) => Err(e),
        Ok(_) => Ok(
            (ExpressionView::Identifier { name: tokens[position as int].identifier }, 1),
        ),
    }
}

/// A call: the callee's name and the parenthesised arguments.
pub open spec fn call(tokens: Seq<TokenView>, position: nat) -> Result<
    (ExpressionView, nat),
    SyntaxErrorView,
> {
    match expect(tokens, position, TokenType::TokIdentifier) {
        Err(e) => Err(e),
        Ok(_) => match expect(tokens, position + 1, TokenType::TokLpar) {
            Err(e) => Err(e),
            Ok(_) => match arguments(tokens, position + 2) {
                Err(e) => Err(e),
                Ok((args, n)) => Ok(
                    (
                        ExpressionView::FunctionCall {
                            name: tokens[position as int].identifier,
                            args,
                        },
                        2 + n,
                    ),
                ),
            },
        },
    }
}

/// The parameters of a declaration from behind the opening parenthesis up to
/// and including the closing one: nothing, or identifiers separated by commas.
pub open spec fn parameters(tokens: Seq<TokenView>, position: nat) -> Result<
    (Seq<Seq<char>>, nat),
    SyntaxErrorView,
> {
    if kind_at(tokens, position) == Some(TokenType::TokRpar) {
        Ok((Seq::empty(), 1))
    } else {
        parameter_list(tokens, position)
    }
}

/// One or more identifiers separated by commas, and the closing parenthesis.
pub open spec fn parameter_list(tokens: Seq<TokenView>, position: nat) -> Result<
    (Seq<Seq<char>>, nat),
    SyntaxErrorView,
>
    decreases remaining(tokens, position),
{
    match expect(tokens, position, TokenType::TokIdentifier) {
        Err(e) => Err(e),
        Ok(_) => {
            let name = tokens[position as int].identifier;
            if kind_at(tokens, position + 1) == Some(TokenType::TokRpar) {
                Ok((seq![name], 2))
            } else {
                match expect(tokens, position + 1, TokenType::TokComma) {
                    Err(e) => Err(e),
                    Ok(_) => match parameter_list(tokens, position + 2) {
                        Err(e) => Err(e),
                        Ok((rest, m)) => Ok((seq![name] + rest, 2 + m)),
                    },
                }
            }
        },
    }
}

/// A declaration: `def`, the name, and the parenthesised parameters.
pub open spec fn declaration(tokens: Seq<TokenView>, position: nat) -> Result<
    (FunctionDeclarationView, nat),
    SyntaxErrorView,
> {
    match expect(tokens, position, TokenType::TokDef) {
        Err(e) => Err(e),
        Ok(_) => match expect(tokens, position + 1, TokenType::TokIdentifier) {
            Err(e) => Err(e),
            Ok(_) => match expect(tokens, position + 2, TokenType::TokLpar) {
                Err(e) => Err(e),
                Ok(_) => match parameters(tokens, position + 3) {
                    Err(e) => Err(e),
                    Ok((args, n)) => Ok(
                        (
                            FunctionDeclarationView {
                                name: tokens[position + 1 as int].identifier,
                                args,
                            },
                            3 + n,
                        ),
                    ),
                },
            },
        },
    }
}

/// A return statement: `return` and an expression.
pub open spec fn return_statement(tokens: Seq<TokenView>, position: nat) -> Result<
    (ScopeStatementView, nat),
    SyntaxErrorView,
> {
    match expect(tokens, position, TokenType::TokReturn) {
        Err(e) => Err(e),
        Ok(_) => match expression(tokens, position + 1) {
            Err(e) => Err(e),
            Ok((return_expr, n)) => Ok((ScopeStatementView::Return { return_expr }, 1 + n)),
        },
    }
}

/// A definition: an identifier, `=`, and an expression.
pub open spec fn definition(tokens: Seq<TokenView>, position: nat) -> Result<
    (ScopeStatementView, nat),
    SyntaxErrorView,
> {
    match expect(tokens, position, TokenType::TokIdentifier) {
        Err(e) => Err(e),
        Ok(_) => match expect(tokens, position + 1, TokenType::TokEquals) {
            Err(e) => Err(e),
            Ok(_) => match expression(tokens, position + 2) {
                Err(e) => Err(e),
                Ok((rvalue_expression, n)) => Ok(
                    (
                        ScopeStatementView::Definition {
                            lvalue_identifier: tokens[position as int].identifier,
                            rvalue_expression,
                        },
                        2 + n,
                    ),
                ),
            },
        },
    }
}

/// What follows the `if` of a conditional: the condition, the scope, and
/// where an `else` comes next, the scope behind it.
pub open spec fn conditional_tail(tokens: Seq<TokenView>, position: nat) -> Result<
    (ScopeStatementView, nat),
    SyntaxErrorView,
>
    decreases remaining(tokens, position), 1nat,
{
    match expression(tokens, position) {
        Err(e) => Err(e),
        Ok((condition, n)) => match scope(tokens, position + n) {
            Err(e) => Err(e),
            Ok((body, m)) => if kind_at(tokens, position + n + m) == Some(TokenType::TokElse) {
                match scope(tokens, position + n + m + 1) {
                    Err(e) => Err(e),
                    Ok((alternative, k)) => Ok(
                        (
                            ScopeStatementView::Conditional {
                                condition,
                                body,
                                alternative: Some(alternative),
                            },
                            n + m + 1 + k,
                        ),
                    ),
                }
            } else {
                Ok(
                    (
                        ScopeStatementView::Conditional { condition, body, alternative: None },
                        n + m,
                    ),
                )
            },
        },
    }
}

/// A conditional: `if` and what follows it.
pub open spec fn conditional(tokens: Seq<TokenView>, position: nat) -> Result<
    (ScopeStatementView, nat),
    SyntaxErrorView,
> {
    match expect(tokens, position, TokenType::TokIf) {
        Err(e) => Err(e),
        Ok(_) => match conditional_tail(tokens, position + 1) {
            Err(e) => Err(e),
            Ok((statement, n)) => Ok((statement, 1 + n)),
        },
    }
}

/// The statements from `position` up to the token that starts none: each
/// starts with `if`, `return` or an identifier.
///
/// The run ends without error in front of a closing brace and at the end of
/// the stream; any other token that starts no statement is an error.
#[verifier::opaque]
pub open spec fn statements(tokens: Seq<TokenView>, position: nat) -> Result<
    (Seq<ScopeStatementView>, nat),
    SyntaxErrorView,
>
    decreases remaining(tokens, position), 0nat,
{
    match token_at(tokens, position) {
        None => Ok((Seq::empty(), 0)),
        Some(token) => {
            let first = match token.token_type {
                TokenType::TokIf => match conditional_tail(tokens, position + 1) {
                    Err(e) => Err(e),
                    Ok((statement, n)) => Ok(Some((statement, 1 + n))),
                },
                TokenType::TokReturn => match return_statement(tokens, position) {
                    Err(e) => Err(e),
                    Ok((statement, n)) => Ok(Some((statement, n))),
                },
                TokenType::TokIdentifier => match definition(tokens, position) {
                    Err(e) => Err(e),
                    Ok((statement, n)) => Ok(Some((statement, n))),
                },
                TokenType::TokRbrak => Ok(None),
                _ => Err(
                    SyntaxErrorView::UnexpectedInScope { actual: Some(token), position },
                ),
            };
            match first {
                Err(e) => Err(e),
                Ok(None) => Ok((Seq::empty(), 0)),
                Ok(Some((statement, n))) => match statements(tokens, position + n) {
                    Err(e) => Err(e),
                    Ok((rest, m)) => Ok((seq![statement] + rest, n + m)),
                },
            }
        },
    }
}

/// A scope: statements between an opening and a closing brace.
pub open spec fn scope(tokens: Seq<TokenView>, position: nat) -> Result<
    (Seq<ScopeStatementView>, nat),
    SyntaxErrorView,
>
    decreases remaining(tokens, position), 0nat,
{
    match expect(tokens, position, TokenType::TokLbrak) {
        Err(e) => Err(e),
        Ok(_) => match statements(tokens, position + 1) {
            Err(e) => Err(e),
            Ok((blocks, n)) => match expect(tokens, position + 1 + n, TokenType::TokRbrak) {
                Err(e) => Err(e),
                Ok(_) => Ok((blocks, n + 2)),
            },
        },
    }
}

/// A function: a declaration and the scope that is its body.
pub open spec fn function(tokens: Seq<TokenView>, position: nat) -> Result<
    (FunctionView, nat),
    SyntaxErrorView,
> {
    match declaration(tokens, position) {
        Err(e) => Err(e),
        Ok((declaration, n)) => match scope(tokens, position + n) {
            Err(e) => Err(e),
            Ok((body, m)) => Ok((FunctionView { declaration, body }, n + m)),
        },
    }
}

/// A program: functions, each starting with `def`, up to the end-of-input
/// token or the end of the stream. Any other token between functions is an
/// error.
pub open spec fn program(tokens: Seq<TokenView>, position: nat) -> Result<
    (Seq<FunctionView>, nat),
    SyntaxErrorView,
>
    decreases remaining(tokens, position),
{
    match token_at(tokens, position) {
        None => Ok((Seq::empty(), 0)),
        Some(token) => match token.token_type {
            TokenType::TokEof => Ok((Seq::empty(), 0)),
            TokenType::TokDef => match function(tokens, position) {
                Err(e) => Err(e),
                Ok((first, n)) => match program(tokens, position + n) {
                    Err(e) => Err(e),
                    Ok((rest, m)) => Ok((seq![first] + rest, n + m)),
                },
            },
            _ => Err(SyntaxErrorView::InvalidToken { actual: token, position }),
        },
    }
}

/// The operator pairs of an expression end in front of a token that is no
/// binary operator.
pub proof fn lemma_operands_end(tokens: Seq<TokenView>, position: nat)
    ensures
        operands(tokens, position) matches Ok((_, n)) ==> !operator_at(tokens, position + n),
    decreases remaining(tokens, position),
{
    if operator_at(tokens, position) {
        if let Ok((_, n)) = primary(tokens, position + 1) {
            lemma_operands_end(tokens, position + 1 + n);
        }
    }
}

/// One step of the climb, as a parser takes it: behind an operator and its
/// operand, either the rest of the expression becomes the right-hand side, or
/// the two are joined to `lhs` and the expression goes on from there.
pub proof fn lemma_continued_step(tokens: Seq<TokenView>, position: nat, lhs: ExpressionView)
    requires
        operator_at(tokens, position),
        primary(tokens, position + 1) is Ok,
    ensures
        ({
            let bin_op = tokens[position as int].token_type;
            let (operand, n) = primary(tokens, position + 1)->Ok_0;
            let next = position + 1 + n;
            continued(tokens, position, lhs) == if operator_at(tokens, next) && precedence(bin_op)
                < precedence(tokens[next as int].token_type) {
                match continued(tokens, next, operand) {
                    Err(e) => Err(e),
                    Ok((rhs, m)) => Ok(
                        (
                            ExpressionView::Binary {
                                bin_op,
                                lhs: Box::new(lhs),
                                rhs: Box::new(rhs),
                            },
                            1 + n + m,
                        ),
                    ),
                }
            } else {
                match continued(
                    tokens,
                    next,
                    ExpressionView::Binary { bin_op, lhs: Box::new(lhs), rhs: Box::new(operand) },
                ) {
                    Err(e) => Err(e),
                    Ok((joined, m)) => Ok((joined, 1 + n + m)),
                }
            }
        }),
{
    let bin_op = tokens[position as int].token_type;
    let (operand, n) = primary(tokens, position + 1)->Ok_0;
    let next = position + 1 + n;
    if let Ok((rest, m)) = operands(tokens, next) {
        let pairs = seq![(bin_op, operand)] + rest;
        assert(pairs.skip(1) =~= rest);
        assert(pairs[0] == (bin_op, operand));
        if operator_at(tokens, next) {
            assert(primary(tokens, next + 1) is Ok);
            assert(rest.len() > 0);
            assert(pairs[1] == rest[0]);
            assert(rest[0].0 == tokens[next as int].token_type);
        } else {
            assert(rest.len() == 0);
        }
    }
}

/// The statement at `position`: which one is decided by its first token. A
/// token that starts none is an error, and so is the end of the stream.
pub open spec fn statement(tokens: Seq<TokenView>, position: nat) -> Result<
    (ScopeStatementView, nat),
    SyntaxErrorView,
> {
    match kind_at(tokens, position) {
        Some(TokenType::TokIf) => conditional(tokens, position),
        Some(TokenType::TokReturn) => return_statement(tokens, position),
        Some(TokenType::TokIdentifier) => definition(tokens, position),
        _ => Err(
            SyntaxErrorView::UnexpectedInScope { actual: token_at(tokens, position), position },
        ),
    }
}

/// Tells whether a run of statements goes on at `position`: a token is
/// there, and it does not close the scope.
pub open spec fn goes_on(tokens: Seq<TokenView>, position: nat) -> bool {
    position < tokens.len() && kind_at(tokens, position) != Some(TokenType::TokRbrak)
}

/// A run of statements ends at the end of the stream and in front of a
/// closing brace; anywhere else it is the statement there and the run behind
/// it.
pub proof fn lemma_statements_step(tokens: Seq<TokenView>, position: nat)
    ensures
        statements(tokens, position) == if goes_on(tokens, position) {
            match statement(tokens, position) {
                Err(e) => Err(e),
                Ok((first, n)) => match statements(tokens, position + n) {
                    Err(e) => Err(e),
                    Ok((rest, m)) => Ok((seq![first] + rest, n + m)),
                },
            }
        } else {
            Ok((Seq::<ScopeStatementView>::empty(), 0nat))
        },
        statement(tokens, position) matches Ok((_, n)) ==> n >= 1,
{
    reveal(statements);
}

/// The rule of precedence in its smallest case: of two operators in a row,
/// the second takes the operand between them where it binds tighter than the
/// first, and leaves it to the first otherwise.
pub proof fn lemma_climb_two(
    first: ExpressionView,
    bin_op: TokenType,
    second: ExpressionView,
    next_bin_op: TokenType,
    third: ExpressionView,
)
    ensures
        climb(first, seq![(bin_op, second), (next_bin_op, third)]) == if precedence(bin_op)
            < precedence(next_bin_op) {
            ExpressionView::Binary {
                bin_op,
                lhs: Box::new(first),
                rhs: Box::new(
                    ExpressionView::Binary {
                        bin_op: next_bin_op,
                        lhs: Box::new(second),
                        rhs: Box::new(third),
                    },
                ),
            }
        } else {
            ExpressionView::Binary {
                bin_op: next_bin_op,
                lhs: Box::new(
                    ExpressionView::Binary {
                        bin_op,
                        lhs: Box::new(first),
                        rhs: Box::new(second),
                    },
                ),
                rhs: Box::new(third),
            }
        },
{
    let pairs = seq![(bin_op, second), (next_bin_op, third)];
    let last = seq![(next_bin_op, third)];
    assert(pairs.skip(1) =~= last);
    assert(last.skip(1) =~= Seq::<(TokenType, ExpressionView)>::empty());
    reveal_with_fuel(climb, 3);
}

} // verus!
