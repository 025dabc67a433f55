//! The token stream, the syntax tree, and the parser that builds one from
//! the other.

use crate::grammar;
use crate::scanner::{Token, TokenType, TokenView};
use vstd::prelude::*;

verus! {

/// Why a token sequence is not a program.
///
/// Every variant names the index of the token at which parsing stopped; the
/// stream's cursor rests there.
#[derive(Clone, Debug, PartialEq, Eq)]
pub enum SyntaxError {
    /// The grammar asks for a token of kind `expected`; `actual` is the token
    /// found instead, `None` where the stream is exhausted.
    Expected { expected: TokenType, actual: Option<Token>, position: usize },
    /// A token that is neither `def` nor the end of input, between functions.
    InvalidToken { actual: Token, position: usize },
    /// A token that starts no statement, `None` where the stream is
    /// exhausted.
    UnexpectedInScope { actual: Option<Token>, position: usize },
    /// A token that starts no expression, `None` where the stream is
    /// exhausted.
    UnexpectedInExpression { actual: Option<Token>, position: usize },
}

/// What a [`SyntaxError`] stands for in contracts.
pub enum SyntaxErrorView {
    Expected { expected: TokenType, actual: Option<TokenView>, position: nat },
    InvalidToken { actual: TokenView, position: nat },
    UnexpectedInScope { actual: Option<TokenView>, position: nat },
    UnexpectedInExpression { actual: Option<TokenView>, position: nat },
}

pub open spec fn optional_view(token: Option<Token>) -> Option<TokenView> {
    match token {
        Some(t) => Some(t@),
        None => None,
    }
}

impl View for SyntaxError {
    type V = SyntaxErrorView;

    open spec fn view(&self) -> SyntaxErrorView {
        match *self {
            SyntaxError::Expected { expected, actual, position } => SyntaxErrorView::Expected {
                expected,
                actual: optional_view(actual),
                position: position as nat,
            },
            SyntaxError::InvalidToken { actual, position } => SyntaxErrorView::InvalidToken {
                actual: actual@,
                position: position as nat,
            },
            SyntaxError::UnexpectedInScope {
                actual,
                position,
            } => SyntaxErrorView::UnexpectedInScope {
                actual: optional_view(actual),
                position: position as nat,
            },
            SyntaxError::UnexpectedInExpression {
                actual,
                position,
            } => SyntaxErrorView::UnexpectedInExpression {
                actual: optional_view(actual),
                position: position as nat,
            },
        }
    }
}

impl SyntaxErrorView {
    /// The index of the token at which parsing stopped.
    pub open spec fn position(self) -> nat {
        match self {
            SyntaxErrorView::Expected { position, .. } => position,
            SyntaxErrorView::InvalidToken { position, .. } => position,
            SyntaxErrorView::UnexpectedInScope { position, .. } => position,
            SyntaxErrorView::UnexpectedInExpression { position, .. } => position,
        }
    }

    /// The text of the diagnostic.
    pub open spec fn message(self) -> Seq<char> {
        match self {
            SyntaxErrorView::Expected { expected, actual: Some(token), .. } => "expected "@
                + expected.symbolic_name() + ", actual "@ + token.rendered(),
            SyntaxErrorView::Expected { expected, actual: None, .. } => "Expected token type "@
                + expected.symbolic_name() + " but didn't find it"@,
            SyntaxErrorView::InvalidToken { .. } => "Invalid token found"@,
            SyntaxErrorView::UnexpectedInScope {
                actual: Some(_),
                ..
            } => "Found unexpected token in scope"@,
            SyntaxErrorView::UnexpectedInScope {
                actual: None,
                ..
            } => "Expected token in scope but didn't find one"@,
            SyntaxErrorView::UnexpectedInExpression {
                actual: Some(_),
                ..
            } => "Received unexpected token type in expression"@,
            SyntaxErrorView::UnexpectedInExpression {
                actual: None,
                ..
            } => "Expected token in expression but didn't find one"@,
        }
    }
}

impl SyntaxError {
    /// The index of the token at which parsing stopped.
    pub fn position(&self) -> (position: usize)
        ensures
            position == self@.position(),
    {
        match self {
            SyntaxError::Expected { position, .. } => *position,
            SyntaxError::InvalidToken { position, .. } => *position,
            SyntaxError::UnexpectedInScope { position, .. } => *position,
            SyntaxError::UnexpectedInExpression { position, .. } => *position,
        }
    }

    /// The text of the diagnostic.
    pub fn message(&self) -> (text: String)
        ensures
            text@ == self@.message(),
    {
        match self {
            SyntaxError::Expected { expected, actual: Some(token), .. } => {
                let mut text = String::from_str("expected ");
                text.append(expected.to_string().as_str());
                text.append(", actual ");
                text.append(token.to_string().as_str());
                text
            },
            SyntaxError::Expected { expected, actual: None, .. } => {
                let mut text = String::from_str("Expected token type ");
                text.append(expected.to_string().as_str());
                text.append(" but didn't find it");
                text
            },
            SyntaxError::InvalidToken { .. } => String::from_str("Invalid token found"),
            SyntaxError::UnexpectedInScope { actual: Some(_), .. } => String::from_str(
                "Found unexpected token in scope",
            ),
            SyntaxError::UnexpectedInScope { actual: None, .. } => String::from_str(
                "Expected token in scope but didn't find one",
            ),
            SyntaxError::UnexpectedInExpression { actual: Some(_), .. } => String::from_str(
                "Received unexpected token type in expression",
            ),
            SyntaxError::UnexpectedInExpression { actual: None, .. } => String::from_str(
                "Expected token in expression but didn't find one",
            ),
        }
    }
}

/// A cursor over a token sequence. The cursor only moves forward.
pub struct TokenStream {
    tokens: Vec<Token>,
    position: usize,
}

/// What a [`TokenStream`] stands for in contracts.
pub struct TokenStreamView {
    pub tokens: Seq<TokenView>,
    /// The index of the next token to consume.
    pub position: nat,
}

impl TokenStreamView {
    /// The token under the cursor, `None` once the stream is exhausted.
    pub open spec fn current(self) -> Option<TokenView> {
        token_at(self.tokens, self.position)
    }

    /// The token one past the cursor.
    pub open spec fn second(self) -> Option<TokenView> {
        token_at(self.tokens, self.position + 1)
    }
}

/// The token at `position`, `None` past the end.
pub open spec fn token_at(tokens: Seq<TokenView>, position: nat) -> Option<TokenView> {
    if position < tokens.len() {
        Some(tokens[position as int])
    } else {
        None
    }
}

/// The kind of the token at `position`, `None` past the end.
pub open spec fn kind_at(tokens: Seq<TokenView>, position: nat) -> Option<TokenType> {
    if position < tokens.len() {
        Some(tokens[position as int].token_type)
    } else {
        None
    }
}

impl View for TokenStream {
    type V = TokenStreamView;

    closed spec fn view(&self) -> TokenStreamView {
        TokenStreamView { tokens: self.tokens.deep_view(), position: self.position as nat }
    }
}

impl TokenStream {
    #[verifier::type_invariant]
    spec fn well_formed(self) -> bool {
        self.position <= self.tokens@.len()
    }

    /// A stream over `tokens` with the cursor on the first of them.
    pub fn new(tokens: Vec<Token>) -> (stream: TokenStream)
        ensures
            stream@.tokens == tokens.deep_view(),
            stream@.position == 0,
    {
        TokenStream { tokens, position: 0 }
    }

    /// The token under the cursor.
    pub fn get_current_token(&self) -> (token: Option<&Token>)
        ensures
            optional_ref_view(token) == self@.current(),
    {
        proof {
            use_type_invariant(self);
        }
        if self.position < self.tokens.len() {
            Some(&self.tokens[self.position])
        } else {
            None
        }
    }

    /// The token one past the cursor.
    pub fn peek_next_token(&self) -> (token: Option<&Token>)
        ensures
            optional_ref_view(token) == self@.second(),
    {
        proof {
            use_type_invariant(self);
        }
        if self.tokens.len() - self.position > 1 {
            Some(&self.tokens[self.position + 1])
        } else {
            None
        }
    }

    /// Tells whether the token under the cursor is one of the nine binary
    /// operators.
    pub fn is_current_token_binary_operator(&self) -> (b: bool)
        ensures
            b == (self@.current() matches Some(t) && t.token_type.is_binary_operator()),
    {
        if let Some(current_token) = self.get_current_token() {
            match current_token.token_type {
                TokenType::TokAdd => true,
                TokenType::TokSub => true,
                TokenType::TokMul => true,
                TokenType::TokDiv => true,
                TokenType::TokMod => true,
                TokenType::TokGt => true,
                TokenType::TokGte => true,
                TokenType::TokLt => true,
                TokenType::TokLte => true,
                _ => false,
            }
        } else {
            false
        }
    }

    /// Checks that the token under the cursor is of kind `expected_token_type`.
    /// The cursor does not move.
    pub fn expected_current_token(&self, expected_token_type: TokenType) -> (result: Result<
        (),
        SyntaxError,
    >)
        ensures
            match expect(self@.tokens, self@.position, expected_token_type) {
                Ok(_) => result is Ok,
                Err(e) => result matches Err(found) && found@ == e,
            },
    {
        match self.get_current_token() {
            Some(curr_token) => {
                if curr_token.token_type == expected_token_type {
                    Ok(())
                } else {
                    Err(
                        SyntaxError::Expected {
                            expected: expected_token_type,
                            actual: Some(curr_token.duplicate()),
                            position: self.position,
                        },
                    )
                }
            },
            None => Err(
                SyntaxError::Expected {
                    expected: expected_token_type,
                    actual: None,
                    position: self.position,
                },
            ),
        }
    }

    /// Hands out the token under the cursor and moves the cursor past it.
    /// An exhausted stream stays as it is.
    pub fn consume(&mut self) -> (token: Option<Token>)
        ensures
            final(self)@.tokens == old(self)@.tokens,
            optional_view(token) == old(self)@.current(),
            final(self)@.position == if token is Some {
                old(self)@.position + 1
            } else {
                old(self)@.position
            },
    {
        proof {
            use_type_invariant(&*self);
        }
        if self.position < self.tokens.len() {
            let token = self.tokens[self.position].duplicate();
            self.position += 1;
            Some(token)
        } else {
            None
        }
    }

    /// The number of tokens in the stream, consumed or not.
    pub fn len(&self) -> (len: usize)
        ensures
            len == self@.tokens.len(),
    {
        self.tokens.len()
    }

    /// The index of the token under the cursor.
    pub fn position(&self) -> (position: usize)
        ensures
            position == self@.position,
            position <= self@.tokens.len(),
    {
        proof {
            use_type_invariant(self);
        }
        self.position
    }
}

pub open spec fn optional_ref_view(token: Option<&Token>) -> Option<TokenView> {
    match token {
        Some(t) => Some(t@),
        None => None,
    }
}

/// What an expect point finds at `position`: nothing to report, or the error
/// that names the expected kind and the token found instead.
pub open spec fn expect(tokens: Seq<TokenView>, position: nat, expected: TokenType) -> Result<
    (),
    SyntaxErrorView,
> {
    if kind_at(tokens, position) == Some(expected) {
        Ok(())
    } else {
        Err(
            SyntaxErrorView::Expected {
                expected,
                actual: token_at(tokens, position),
                position,
            },
        )
    }
}

/// The name and the parameter names of a function, in the order written.
#[derive(Debug, PartialEq, Eq)]
pub struct FunctionDeclaration {
    pub name: String,
    pub args: Vec<String>,
}

#[derive(Debug, PartialEq, Eq)]
pub enum Expression {
    Binary(BinaryExpression),
    NumberLiteral(NumberLiteralExpression),
    Identifier(IdentifierExpression),
    FunctionCall(FunctionCallExpression),
}

/// Two operands joined by one of the nine binary operators.
#[derive(Debug, PartialEq, Eq)]
pub struct BinaryExpression {
    pub bin_op: TokenType,
    pub lhs: Box<Expression>,
    pub rhs: Box<Expression>,
}

/// A number, held as it was written in the source.
#[derive(Debug, PartialEq, Eq)]
pub struct NumberLiteralExpression {
    pub value: String,
}

#[derive(Debug, PartialEq, Eq)]
pub struct IdentifierExpression {
    pub name: String,
}

/// A call: the name of the callee and the arguments in the order written.
#[derive(Debug, PartialEq, Eq)]
pub struct FunctionCallExpression {
    pub name: String,
    pub args: Vec<Expression>,
}

#[derive(Debug, PartialEq, Eq)]
pub enum ScopeStatement {
    Definition(DefinitionScopeStatement),
    Conditional(ConditionalScopeStatement),
    Return(ReturnScopeStatement),
}

#[derive(Debug, PartialEq, Eq)]
pub struct DefinitionScopeStatement {
    pub lvalue_identifier: String,
    pub rvalue_expression: Expression,
}

#[derive(Debug, PartialEq, Eq)]
pub struct ReturnScopeStatement {
    pub return_expr: Expression,
}

/// A condition, the scope run when it holds, and the scope after `else`
/// where one is written.
#[derive(Debug, PartialEq, Eq)]
pub struct ConditionalScopeStatement {
    pub condition: Expression,
    pub body: Scope,
    pub alternative: Option<Scope>,
}

/// The statements between a pair of braces, in the order written.
#[derive(Debug, PartialEq, Eq)]
pub struct Scope {
    pub blocks: Vec<ScopeStatement>,
}

#[derive(Debug, PartialEq, Eq)]
pub struct Function {
    pub declaration: FunctionDeclaration,
    pub body: Scope,
}

/// The functions of a source, in the order declared.
#[derive(Debug, PartialEq, Eq)]
pub struct Program {
    pub functions: Vec<Function>,
}

/// What an expression stands for in contracts.
pub enum ExpressionView {
    Binary { bin_op: TokenType, lhs: Box<ExpressionView>, rhs: Box<ExpressionView> },
    NumberLiteral { value: Seq<char> },
    Identifier { name: Seq<char> },
    FunctionCall { name: Seq<char>, args: Seq<ExpressionView> },
}

/// What a statement stands for in contracts. A scope stands for the sequence
/// of its statements.
pub enum ScopeStatementView {
    Definition { lvalue_identifier: Seq<char>, rvalue_expression: ExpressionView },
    Conditional {
        condition: ExpressionView,
        body: Seq<ScopeStatementView>,
        alternative: Option<Seq<ScopeStatementView>>,
    },
    Return { return_expr: ExpressionView },
}

pub struct FunctionDeclarationView {
    pub name: Seq<char>,
    pub args: Seq<Seq<char>>,
}

/// What a function stands for in contracts. A program stands for the
/// sequence of its functions.
pub struct FunctionView {
    pub declaration: FunctionDeclarationView,
    pub body: Seq<ScopeStatementView>,
}

impl Expression {
    pub open spec fn model(&self) -> ExpressionView
        decreases self,
    {
        match self {
            Expression::Binary(binary) => ExpressionView::Binary {
                bin_op: binary.bin_op,
                lhs: Box::new(binary.lhs.model()),
                rhs: Box::new(binary.rhs.model()),
            },
            Expression::NumberLiteral(number) => ExpressionView::NumberLiteral {
                value: number.value@,
            },
            Expression::Identifier(identifier) => ExpressionView::Identifier {
                name: identifier.name@,
            },
            Expression::FunctionCall(call) => ExpressionView::FunctionCall {
                name: call.name@,
                args: Seq::new(
                    call.args@.len(),
                    |i: int|
                        if 0 <= i < call.args@.len() {
                            call.args@[i].model()
                        } else {
                            arbitrary()
                        },
                ),
            },
        }
    }
}

impl ScopeStatement {
    pub open spec fn model(&self) -> ScopeStatementView
        decreases self,
    {
        match self {
            ScopeStatement::Definition(definition) => ScopeStatementView::Definition {
                lvalue_identifier: definition.lvalue_identifier@,
                rvalue_expression: definition.rvalue_expression.model(),
            },
            ScopeStatement::Conditional(conditional) => ScopeStatementView::Conditional {
                condition: conditional.condition.model(),
                body: conditional.body.model(),
                alternative: match conditional.alternative {
                    Some(scope) => Some(scope.model()),
                    None => None,
                },
            },
            ScopeStatement::Return(ret) => ScopeStatementView::Return {
                return_expr: ret.return_expr.model(),
            },
        }
    }
}

impl Scope {
    pub open spec fn model(&self) -> Seq<ScopeStatementView>
        decreases self,
    {
        Seq::new(
            self.blocks@.len(),
            |i: int|
                if 0 <= i < self.blocks@.len() {
                    self.blocks@[i].model()
                } else {
                    arbitrary()
                },
        )
    }
}

impl View for Expression {
    type V = ExpressionView;

    open spec fn view(&self) -> ExpressionView {
        self.model()
    }
}

impl View for BinaryExpression {
    type V = ExpressionView;

    open spec fn view(&self) -> ExpressionView {
        ExpressionView::Binary {
            bin_op: self.bin_op,
            lhs: Box::new(self.lhs.model()),
            rhs: Box::new(self.rhs.model()),
        }
    }
}

impl View for NumberLiteralExpression {
    type V = ExpressionView;

    open spec fn view(&self) -> ExpressionView {
        ExpressionView::NumberLiteral { value: self.value@ }
    }
}

impl View for IdentifierExpression {
    type V = ExpressionView;

    open spec fn view(&self) -> ExpressionView {
        ExpressionView::Identifier { name: self.name@ }
    }
}

/// The views of `expressions`, in order.
pub open spec fn expression_views(expressions: Seq<Expression>) -> Seq<ExpressionView> {
    Seq::new(expressions.len(), |i: int| expressions[i]@)
}

impl View for FunctionCallExpression {
    type V = ExpressionView;

    open spec fn view(&self) -> ExpressionView {
        ExpressionView::FunctionCall { name: self.name@, args: expression_views(self.args@) }
    }
}

impl View for ScopeStatement {
    type V = ScopeStatementView;

    open spec fn view(&self) -> ScopeStatementView {
        self.model()
    }
}

impl View for DefinitionScopeStatement {
    type V = ScopeStatementView;

    open spec fn view(&self) -> ScopeStatementView {
        ScopeStatementView::Definition {
            lvalue_identifier: self.lvalue_identifier@,
            rvalue_expression: self.rvalue_expression@,
        }
    }
}

impl View for ReturnScopeStatement {
    type V = ScopeStatementView;

    open spec fn view(&self) -> ScopeStatementView {
        ScopeStatementView::Return { return_expr: self.return_expr@ }
    }
}

/// The view of the scope after `else`, where there is one.
pub open spec fn optional_scope_view(scope: Option<Scope>) -> Option<Seq<ScopeStatementView>> {
    match scope {
        Some(scope) => Some(scope@),
        None => None,
    }
}

impl View for ConditionalScopeStatement {
    type V = ScopeStatementView;

    open spec fn view(&self) -> ScopeStatementView {
        ScopeStatementView::Conditional {
            condition: self.condition@,
            body: self.body@,
            alternative: optional_scope_view(self.alternative),
        }
    }
}

/// The views of `statements`, in order.
pub open spec fn statement_views(statements: Seq<ScopeStatement>) -> Seq<ScopeStatementView> {
    Seq::new(statements.len(), |i: int| statements[i]@)
}

impl View for Scope {
    type V = Seq<ScopeStatementView>;

    open spec fn view(&self) -> Seq<ScopeStatementView> {
        statement_views(self.blocks@)
    }
}

impl View for FunctionDeclaration {
    type V = FunctionDeclarationView;

    open spec fn view(&self) -> FunctionDeclarationView {
        FunctionDeclarationView { name: self.name@, args: self.args.deep_view() }
    }
}

impl View for Function {
    type V = FunctionView;

    open spec fn view(&self) -> FunctionView {
        FunctionView { declaration: self.declaration@, body: self.body@ }
    }
}

/// The views of `functions`, in order.
pub open spec fn function_views(functions: Seq<Function>) -> Seq<FunctionView> {
    Seq::new(functions.len(), |i: int| functions[i]@)
}

impl View for Program {
    type V = Seq<FunctionView>;

    open spec fn view(&self) -> Seq<FunctionView> {
        function_views(self.functions@)
    }
}

/// A call seen as an expression has the view of the call itself.
pub proof fn lemma_call_view(call: FunctionCallExpression)
    ensures
        Expression::FunctionCall(call)@ == call@,
{
    assert(Expression::FunctionCall(call).model()->FunctionCall_args =~= expression_views(
        call.args@,
    ));
}

/// A scope inside a statement has the view of the scope itself.
pub proof fn lemma_scope_view(scope: Scope)
    ensures
        scope.model() == scope@,
{
    assert(scope.model() =~= statement_views(scope.blocks@));
}

/// The result of a parsing function, as contracts speak of it.
pub open spec fn outcome<X: View>(result: Result<X, SyntaxError>) -> Result<X::V, SyntaxErrorView> {
    match result {
        Ok(node) => Ok(node@),
        Err(e) => Err(e@),
    }
}

/// Tells whether a parsing function did what `production` says of the
/// stream `before`.
///
/// The tokens stay. Where the production yields a node, the result is that
/// node and the cursor has moved past the node's tokens; where it yields an
/// error, the result is that error and the cursor rests on the token that the
/// error names.
pub open spec fn follows<V>(
    before: TokenStreamView,
    after: TokenStreamView,
    result: Result<V, SyntaxErrorView>,
    production: Result<(V, nat), SyntaxErrorView>,
) -> bool {
    &&& after.tokens == before.tokens
    &&& match production {
        Ok((node, n)) => result == Ok::<V, SyntaxErrorView>(node) && after.position
            == before.position + n,
        Err(e) => result == Err::<V, SyntaxErrorView>(e) && after.position == e.position(),
    }
}

impl TokenStream {
    /// Checks that the token under the cursor is of kind `expected`, hands it
    /// out and moves the cursor past it.
    pub fn take(&mut self, expected: TokenType) -> (result: Result<Token, SyntaxError>)
        ensures
            final(self)@.tokens == old(self)@.tokens,
            match expect(old(self)@.tokens, old(self)@.position, expected) {
                Ok(_) => {
                    &&& result matches Ok(token)
                    &&& token@ == old(self)@.tokens[old(self)@.position as int]
                    &&& final(self)@.position == old(self)@.position + 1
                },
                Err(e) => {
                    &&& result matches Err(found)
                    &&& found@ == e
                    &&& final(self)@.position == old(self)@.position
                },
            },
    {
        match self.expected_current_token(expected) {
            Err(e) => Err(e),
            Ok(()) => match self.consume() {
                Some(token) => Ok(token),
                None => vstd::pervasive::unreached(),
            },
        }
    }

    /// Tells whether the token under the cursor is of kind `kind`.
    pub fn is_current(&self, kind: TokenType) -> (b: bool)
        ensures
            b == (kind_at(self@.tokens, self@.position) == Some(kind)),
    {
        match self.get_current_token() {
            Some(token) => token.token_type == kind,
            None => false,
        }
    }

    /// Tells whether the token one past the cursor is of kind `kind`.
    pub fn is_next(&self, kind: TokenType) -> (b: bool)
        ensures
            b == (kind_at(self@.tokens, self@.position + 1) == Some(kind)),
    {
        match self.peek_next_token() {
            Some(token) => token.token_type == kind,
            None => false,
        }
    }
}

impl NumberLiteralExpression {
    /// Parses a number literal on its own.
    pub fn visit(tokens: &mut TokenStream) -> (result: Result<NumberLiteralExpression, SyntaxError>)
        ensures
            follows(
                old(tokens)@,
                final(tokens)@,
                outcome(result),
                grammar::number(old(tokens)@.tokens, old(tokens)@.position),
            ),
    {
        match tokens.take(TokenType::TokNumber) {
            Ok(token) => Ok(NumberLiteralExpression { value: token.number }),
            Err(e) => Err(e),
        }
    }
}

impl IdentifierExpression {
    /// Parses an identifier on its own.
    pub fn visit(tokens: &mut TokenStream) -> (result: Result<IdentifierExpression, SyntaxError>)
        ensures
            follows(
                old(tokens)@,
                final(tokens)@,
                outcome(result),
                grammar::identifier(old(tokens)@.tokens, old(tokens)@.position),
            ),
    {
        match tokens.take(TokenType::TokIdentifier) {
            Ok(identifier_token) => Ok(IdentifierExpression { name: identifier_token.identifier }),
            Err(e) => Err(e),
        }
    }
}

impl FunctionDeclaration {
    /// Parses a declaration: `def`, the name, and the parameters in
    /// parentheses, separated by commas.
    pub fn visit(tokens: &mut TokenStream) -> (result: Result<FunctionDeclaration, SyntaxError>)
        ensures
            follows(
                old(tokens)@,
                final(tokens)@,
                outcome(result),
                grammar::declaration(old(tokens)@.tokens, old(tokens)@.position),
            ),
    {
        let ghost all = tokens@.tokens;
        let ghost start = tokens@.position;
        match tokens.take(TokenType::TokDef) {
            Err(e) => {
                return Err(e);
            },
            Ok(_) => {},
        }
        let fn_name = match tokens.take(TokenType::TokIdentifier) {
            Err(e) => {
                return Err(e);
            },
            Ok(token) => token.identifier,
        };
        match tokens.take(TokenType::TokLpar) {
            Err(e) => {
                return Err(e);
            },
            Ok(_) => {},
        }
        // get function args
        let mut args: Vec<String> = Vec::new();
        assert(args.deep_view() =~= Seq::<Seq<char>>::empty());
        if tokens.is_current(TokenType::TokRpar) {
            tokens.consume();
            return Ok(FunctionDeclaration { name: fn_name, args });
        }
        loop
            invariant_except_break
                match grammar::parameter_list(all, tokens@.position) {
                    Ok((rest, m)) => grammar::parameter_list(all, start + 3) == Ok::<
                        (Seq<Seq<char>>, nat),
                        SyntaxErrorView,
                    >((args.deep_view() + rest, (tokens@.position - (start + 3) + m) as nat)),
                    Err(e) => grammar::parameter_list(all, start + 3) == Err::<
                        (Seq<Seq<char>>, nat),
                        SyntaxErrorView,
                    >(e),
                },
            invariant
                tokens@.tokens == all,
                start + 3 <= tokens@.position,
                expect(all, start, TokenType::TokDef) is Ok,
                expect(all, start + 1, TokenType::TokIdentifier) is Ok,
                expect(all, start + 2, TokenType::TokLpar) is Ok,
                kind_at(all, start + 3) != Some(TokenType::TokRpar),
                old(tokens)@.tokens == all,
                old(tokens)@.position == start,
            ensures
                tokens@.tokens == all,
                grammar::parameter_list(all, start + 3) == Ok::<
                    (Seq<Seq<char>>, nat),
                    SyntaxErrorView,
                >((args.deep_view(), (tokens@.position - (start + 3)) as nat)),
            decreases grammar::remaining(all, tokens@.position),
        {
            let ghost before = args.deep_view();
            let ghost here = tokens@.position;
            match tokens.take(TokenType::TokIdentifier) {
                Err(e) => {
                    return Err(e);
                },
                Ok(token) => {
                    args.push(token.identifier);
                    assert(args.deep_view() =~= before.push(token@.identifier));
                },
            }
            if tokens.is_current(TokenType::TokRpar) {
                tokens.consume();
                assert(before + seq![all[here as int].identifier] =~= args.deep_view());
                break;
            }
            match tokens.take(TokenType::TokComma) {
                Err(e) => {
                    return Err(e);
                },
                Ok(_) => {},
            }
            assert forall|rest: Seq<Seq<char>>|
                before + (seq![all[here as int].identifier] + rest) =~= #[trigger] (args.deep_view()
                    + rest) by {}
        }
        Ok(FunctionDeclaration { name: fn_name, args })
    }
}

impl FunctionCallExpression {
    /// Parses a call: the callee's name and the arguments in parentheses,
    /// separated by commas.
    pub fn visit(tokens: &mut TokenStream) -> (result: Result<FunctionCallExpression, SyntaxError>)
        ensures
            follows(
                old(tokens)@,
                final(tokens)@,
                outcome(result),
                grammar::call(old(tokens)@.tokens, old(tokens)@.position),
            ),
        decreases grammar::remaining(old(tokens)@.tokens, old(tokens)@.position), 0nat,
    {
        let ghost all = tokens@.tokens;
        let ghost start = tokens@.position;
        let name = match tokens.take(TokenType::TokIdentifier) {
            Err(e) => {
                return Err(e);
            },
            Ok(token) => token.identifier,
        };
        match tokens.take(TokenType::TokLpar) {
            Err(e) => {
                return Err(e);
            },
            Ok(_) => {},
        }
        let mut args: Vec<Expression> = Vec::new();
        assert(expression_views(args@) =~= Seq::<ExpressionView>::empty());
        if tokens.is_current(TokenType::TokRpar) {
            tokens.consume();
            return Ok(FunctionCallExpression { name, args });
        }
        loop
            invariant_except_break
                match grammar::argument_list(all, tokens@.position) {
                    Ok((rest, m)) => grammar::argument_list(all, start + 2) == Ok::<
                        (Seq<ExpressionView>, nat),
                        SyntaxErrorView,
                    >(
                        (
                            expression_views(args@) + rest,
                            (tokens@.position - (start + 2) + m) as nat,
                        ),
                    ),
                    Err(e) => grammar::argument_list(all, start + 2) == Err::<
                        (Seq<ExpressionView>, nat),
                        SyntaxErrorView,
                    >(e),
                },
            invariant
                tokens@.tokens == all,
                start + 2 <= tokens@.position,
                start + 1 < all.len(),
                expect(all, start, TokenType::TokIdentifier) is Ok,
                expect(all, start + 1, TokenType::TokLpar) is Ok,
                kind_at(all, start + 2) != Some(TokenType::TokRpar),
                old(tokens)@.tokens == all,
                old(tokens)@.position == start,
                name@ == all[start as int].identifier,
            ensures
                tokens@.tokens == all,
                grammar::argument_list(all, start + 2) == Ok::<
                    (Seq<ExpressionView>, nat),
                    SyntaxErrorView,
                >((expression_views(args@), (tokens@.position - (start + 2)) as nat)),
            decreases grammar::remaining(all, tokens@.position),
        {
            let ghost before = expression_views(args@);
            let ghost here = tokens@.position;
            let argument = match Expression::visit(tokens) {
                Err(e) => {
                    return Err(e);
                },
                Ok(argument) => argument,
            };
            let ghost first = argument@;
            args.push(argument);
            assert(expression_views(args@) =~= before.push(first));
            if tokens.is_current(TokenType::TokRpar) {
                tokens.consume();
                assert(before + seq![first] =~= expression_views(args@));
                break;
            }
            match tokens.take(TokenType::TokComma) {
                Err(e) => {
                    return Err(e);
                },
                Ok(_) => {},
            }
            assert forall|rest: Seq<ExpressionView>|
                before + (seq![first] + rest) =~= #[trigger] (expression_views(args@) + rest) by {}
        }
        Ok(FunctionCallExpression { name, args })
    }
}

impl Expression {
    /// Parses a primary: a number, an identifier, or a call.
    pub fn handle_lhs(tokens: &mut TokenStream) -> (result: Result<Expression, SyntaxError>)
        ensures
            follows(
                old(tokens)@,
                final(tokens)@,
                outcome(result),
                grammar::primary(old(tokens)@.tokens, old(tokens)@.position),
            ),
        decreases grammar::remaining(old(tokens)@.tokens, old(tokens)@.position), 1nat,
    {
        let kind = match tokens.get_current_token() {
            Some(token) => token.token_type,
            None => {
                return Err(
                    SyntaxError::UnexpectedInExpression {
                        actual: None,
                        position: tokens.position(),
                    },
                );
            },
        };
        match kind {
            TokenType::TokIdentifier => {
                // the token after decides between a variable and a function call
                let is_fn_call = tokens.is_next(TokenType::TokLpar);
                if is_fn_call {
                    match FunctionCallExpression::visit(tokens) {
                        Ok(call) => {
                            proof {
                                lemma_call_view(call);
                            }
                            Ok(Expression::FunctionCall(call))
                        },
                        Err(e) => Err(e),
                    }
                } else {
                    match IdentifierExpression::visit(tokens) {
                        Ok(identifier) => Ok(Expression::Identifier(identifier)),
                        Err(e) => Err(e),
                    }
                }
            },
            TokenType::TokNumber => match NumberLiteralExpression::visit(tokens) {
                Ok(number) => Ok(Expression::NumberLiteral(number)),
                Err(e) => Err(e),
            },
            _ => match tokens.get_current_token() {
                Some(token) => Err(
                    SyntaxError::UnexpectedInExpression {
                        actual: Some(token.duplicate()),
                        position: tokens.position(),
                    },
                ),
                None => vstd::pervasive::unreached(),
            },
        }
    }

    /// How tightly the operator `token` binds; -1 where it is no binary
    /// operator.
    pub fn get_bin_op_precedence(token: &Token) -> (precedence: i32)
        ensures
            precedence == grammar::precedence(token.token_type),
    {
        match token.token_type {
            TokenType::TokAdd => 1000,
            TokenType::TokSub => 2000,
            TokenType::TokMul => 3000,
            TokenType::TokDiv => 4000,
            TokenType::TokMod => 5000,
            TokenType::TokGt => 6000,
            TokenType::TokGte => 7000,
            TokenType::TokLt => 8000,
            TokenType::TokLte => 9000,
            _ => -1,
        }
    }

    /// Parses what follows the primary `lhs` of an expression and combines
    /// it with `lhs`.
    ///
    /// Operators and operands are taken from the left. Where the operator
    /// behind an operand binds tighter than the one in front of it, the rest
    /// of the expression becomes the right-hand side; otherwise the operand is
    /// joined to what was parsed so far.
    pub fn handle_bin_op_rhs(tokens: &mut TokenStream, lhs: Expression) -> (result: Result<
        Expression,
        SyntaxError,
    >)
        ensures
            follows(
                old(tokens)@,
                final(tokens)@,
                outcome(result),
                grammar::continued(old(tokens)@.tokens, old(tokens)@.position, lhs@),
            ),
        decreases grammar::remaining(old(tokens)@.tokens, old(tokens)@.position), 0nat,
    {
        let ghost all = tokens@.tokens;
        let ghost start = tokens@.position;
        let mut joined = lhs;
        loop
            invariant
                tokens@.tokens == all,
                old(tokens)@.tokens == all,
                old(tokens)@.position == start,
                start <= tokens@.position,
                match grammar::continued(all, tokens@.position, joined@) {
                    Ok((e, n)) => grammar::continued(all, start, lhs@) == Ok::<
                        (ExpressionView, nat),
                        SyntaxErrorView,
                    >((e, (tokens@.position - start + n) as nat)),
                    Err(e) => grammar::continued(all, start, lhs@) == Err::<
                        (ExpressionView, nat),
                        SyntaxErrorView,
                    >(e),
                },
            decreases grammar::remaining(all, tokens@.position),
        {
            if !tokens.is_current_token_binary_operator() {
                return Ok(joined);
            }
            let ghost here = tokens@.position;
            let ghost so_far = joined@;
            // dont consume unless we're sure this is a binary operator
            let bin_op = match tokens.consume() {
                Some(bin_op) => bin_op,
                None => vstd::pervasive::unreached(),
            };
            let bin_op_precedence = Expression::get_bin_op_precedence(&bin_op);
            let mut rhs = match Expression::handle_lhs(tokens) {
                Err(e) => {
                    return Err(e);
                },
                Ok(rhs) => rhs,
            };
            proof {
                grammar::lemma_continued_step(all, here, so_far);
            }
            let next_bin_op_precedence = match tokens.get_current_token() {
                Some(next_bin_op) => Expression::get_bin_op_precedence(next_bin_op),
                None => -1,
            };
            if tokens.is_current_token_binary_operator() && bin_op_precedence
                < next_bin_op_precedence {
                let ghost next = tokens@.position;
                rhs = match Expression::handle_bin_op_rhs(tokens, rhs) {
                    Err(e) => {
                        return Err(e);
                    },
                    Ok(rhs) => rhs,
                };
                proof {
                    grammar::lemma_operands_end(all, next);
                }
            }
            joined = Expression::Binary(
                BinaryExpression {
                    bin_op: bin_op.token_type,
                    lhs: Box::new(joined),
                    rhs: Box::new(rhs),
                },
            );
        }
    }

    /// Parses an expression.
    pub fn visit(tokens: &mut TokenStream) -> (result: Result<Expression, SyntaxError>)
        ensures
            follows(
                old(tokens)@,
                final(tokens)@,
                outcome(result),
                grammar::expression(old(tokens)@.tokens, old(tokens)@.position),
            ),
        decreases grammar::remaining(old(tokens)@.tokens, old(tokens)@.position), 2nat,
    {
        let lhs = match Expression::handle_lhs(tokens) {
            Err(e) => {
                return Err(e);
            },
            Ok(lhs) => lhs,
        };
        Expression::handle_bin_op_rhs(tokens, lhs)
    }
}

/// A conditional seen as a statement has the view of the conditional itself.
pub proof fn lemma_conditional_view(conditional: ConditionalScopeStatement)
    ensures
        ScopeStatement::Conditional(conditional)@ == conditional@,
{
    lemma_scope_view(conditional.body);
    if let Some(scope) = conditional.alternative {
        lemma_scope_view(scope);
    }
}

impl DefinitionScopeStatement {
    /// Parses a definition: an identifier, `=`, and an expression.
    pub fn visit(tokens: &mut TokenStream) -> (result: Result<
        DefinitionScopeStatement,
        SyntaxError,
    >)
        ensures
            follows(
                old(tokens)@,
                final(tokens)@,
                outcome(result),
                grammar::definition(old(tokens)@.tokens, old(tokens)@.position),
            ),
    {
        let lvalue_token = match tokens.take(TokenType::TokIdentifier) {
            Err(e) => {
                return Err(e);
            },
            Ok(token) => token,
        };
        match tokens.take(TokenType::TokEquals) {
            Err(e) => {
                return Err(e);
            },
            Ok(_) => {},
        }
        match Expression::visit(tokens) {
            Err(e) => Err(e),
            Ok(rvalue_expression) => Ok(
                DefinitionScopeStatement {
                    lvalue_identifier: lvalue_token.identifier,
                    rvalue_expression,
                },
            ),
        }
    }
}

impl ReturnScopeStatement {
    /// Parses a return statement: `return` and an expression.
    pub fn visit(tokens: &mut TokenStream) -> (result: Result<ReturnScopeStatement, SyntaxError>)
        ensures
            follows(
                old(tokens)@,
                final(tokens)@,
                outcome(result),
                grammar::return_statement(old(tokens)@.tokens, old(tokens)@.position),
            ),
    {
        match tokens.take(TokenType::TokReturn) {
            Err(e) => {
                return Err(e);
            },
            Ok(_) => {},
        }
        match Expression::visit(tokens) {
            Err(e) => Err(e),
            Ok(return_expr) => Ok(ReturnScopeStatement { return_expr }),
        }
    }
}

impl ConditionalScopeStatement {
    /// Parses a conditional: `if`, the condition, the scope, and where an
    /// `else` comes next, the scope behind it.
    pub fn visit(tokens: &mut TokenStream) -> (result: Result<
        ConditionalScopeStatement,
        SyntaxError,
    >)
        ensures
            follows(
                old(tokens)@,
                final(tokens)@,
                outcome(result),
                grammar::conditional(old(tokens)@.tokens, old(tokens)@.position),
            ),
        decreases grammar::remaining(old(tokens)@.tokens, old(tokens)@.position), 0nat,
    {
        match tokens.take(TokenType::TokIf) {
            Err(e) => {
                return Err(e);
            },
            Ok(_) => {},
        }
        let condition = match Expression::visit(tokens) {
            Err(e) => {
                return Err(e);
            },
            Ok(condition) => condition,
        };
        let body = match Scope::visit(tokens) {
            Err(e) => {
                return Err(e);
            },
            Ok(body) => body,
        };
        if tokens.is_current(TokenType::TokElse) {
            tokens.consume();
            match Scope::visit(tokens) {
                Err(e) => Err(e),
                Ok(alternative) => Ok(
                    ConditionalScopeStatement { condition, body, alternative: Some(alternative) },
                ),
            }
        } else {
            Ok(ConditionalScopeStatement { condition, body, alternative: None })
        }
    }
}

impl ScopeStatement {
    /// Parses one statement; its first token decides which.
    pub fn visit(tokens: &mut TokenStream) -> (result: Result<ScopeStatement, SyntaxError>)
        ensures
            follows(
                old(tokens)@,
                final(tokens)@,
                outcome(result),
                grammar::statement(old(tokens)@.tokens, old(tokens)@.position),
            ),
        decreases grammar::remaining(old(tokens)@.tokens, old(tokens)@.position), 1nat,
    {
        if tokens.is_current(TokenType::TokIf) {
            match ConditionalScopeStatement::visit(tokens) {
                Err(e) => Err(e),
                Ok(conditional) => {
                    proof {
                        lemma_conditional_view(conditional);
                    }
                    Ok(ScopeStatement::Conditional(conditional))
                },
            }
        } else if tokens.is_current(TokenType::TokReturn) {
            match ReturnScopeStatement::visit(tokens) {
                Err(e) => Err(e),
                Ok(ret) => Ok(ScopeStatement::Return(ret)),
            }
        } else if tokens.is_current(TokenType::TokIdentifier) {
            match DefinitionScopeStatement::visit(tokens) {
                Err(e) => Err(e),
                Ok(definition) => Ok(ScopeStatement::Definition(definition)),
            }
        } else {
            let actual = match tokens.get_current_token() {
                Some(token) => Some(token.duplicate()),
                None => None,
            };
            Err(SyntaxError::UnexpectedInScope { actual, position: tokens.position() })
        }
    }
}

impl Scope {
    /// Parses a scope: statements between braces.
    pub fn visit(tokens: &mut TokenStream) -> (result: Result<Scope, SyntaxError>)
        ensures
            follows(
                old(tokens)@,
                final(tokens)@,
                outcome(result),
                grammar::scope(old(tokens)@.tokens, old(tokens)@.position),
            ),
        decreases grammar::remaining(old(tokens)@.tokens, old(tokens)@.position), 0nat,
    {
        let ghost all = tokens@.tokens;
        let ghost start = tokens@.position;
        match tokens.take(TokenType::TokLbrak) {
            Err(e) => {
                return Err(e);
            },
            Ok(_) => {},
        }
        let mut blocks: Vec<ScopeStatement> = Vec::new();
        assert(statement_views(blocks@) =~= Seq::<ScopeStatementView>::empty());
        loop
            invariant
                tokens@.tokens == all,
                old(tokens)@.tokens == all,
                old(tokens)@.position == start,
                start + 1 <= tokens@.position,
                start < all.len(),
                expect(all, start, TokenType::TokLbrak) is Ok,
                match grammar::statements(all, tokens@.position) {
                    Ok((rest, m)) => grammar::statements(all, start + 1) == Ok::<
                        (Seq<ScopeStatementView>, nat),
                        SyntaxErrorView,
                    >(
                        (
                            statement_views(blocks@) + rest,
                            (tokens@.position - (start + 1) + m) as nat,
                        ),
                    ),
                    Err(e) => grammar::statements(all, start + 1) == Err::<
                        (Seq<ScopeStatementView>, nat),
                        SyntaxErrorView,
                    >(e),
                },
            ensures
                tokens@.tokens == all,
                grammar::statements(all, start + 1) == Ok::<
                    (Seq<ScopeStatementView>, nat),
                    SyntaxErrorView,
                >((statement_views(blocks@), (tokens@.position - (start + 1)) as nat)),
            decreases grammar::remaining(all, tokens@.position),
        {
            let ghost before = statement_views(blocks@);
            proof {
                grammar::lemma_statements_step(all, tokens@.position);
                assert(before + Seq::<ScopeStatementView>::empty() =~= before);
            }
            if tokens.position() >= tokens.len() || tokens.is_current(TokenType::TokRbrak) {
                break;
            }
            let statement = match ScopeStatement::visit(tokens) {
                Err(e) => {
                    return Err(e);
                },
                Ok(statement) => statement,
            };
            let ghost first = statement@;
            blocks.push(statement);
            assert(statement_views(blocks@) =~= before.push(first));
            assert forall|rest: Seq<ScopeStatementView>|
                before + (seq![first] + rest) =~= #[trigger] (statement_views(blocks@) + rest) by {}
        }
        match tokens.take(TokenType::TokRbrak) {
            Err(e) => Err(e),
            Ok(_) => Ok(Scope { blocks }),
        }
    }
}

impl Function {
    /// Parses a function: a declaration and the scope that is its body.
    pub fn visit(tokens: &mut TokenStream) -> (result: Result<Function, SyntaxError>)
        ensures
            follows(
                old(tokens)@,
                final(tokens)@,
                outcome(result),
                grammar::function(old(tokens)@.tokens, old(tokens)@.position),
            ),
    {
        let declaration = match FunctionDeclaration::visit(tokens) {
            Err(e) => {
                return Err(e);
            },
            Ok(declaration) => declaration,
        };
        match Scope::visit(tokens) {
            Err(e) => Err(e),
            Ok(body) => Ok(Function { body, declaration }),
        }
    }
}

/// The parser: a token stream on its way to becoming a program.
pub struct Parser {
    tokens: TokenStream,
}

impl View for Parser {
    type V = TokenStreamView;

    closed spec fn view(&self) -> TokenStreamView {
        self.tokens@
    }
}

impl Parser {
    /// A parser at the start of `tokens`.
    pub fn new(tokens: Vec<Token>) -> (parser: Parser)
        ensures
            parser@.tokens == tokens.deep_view(),
            parser@.position == 0,
    {
        Parser { tokens: TokenStream::new(tokens) }
    }

    /// Parses the functions from the cursor up to the end-of-input token,
    /// which stays unconsumed, or up to the end of the stream.
    pub fn parse(&mut self) -> (result: Result<Program, SyntaxError>)
        ensures
            follows(
                old(self)@,
                final(self)@,
                outcome(result),
                grammar::program(old(self)@.tokens, old(self)@.position),
            ),
    {
        let ghost all = self@.tokens;
        let ghost start = self@.position;
        let mut functions: Vec<Function> = Vec::new();
        assert(function_views(functions@) =~= Seq::<FunctionView>::empty());
        loop
            invariant
                self@.tokens == all,
                old(self)@.tokens == all,
                old(self)@.position == start,
                start <= self@.position,
                match grammar::program(all, self@.position) {
                    Ok((rest, m)) => grammar::program(all, start) == Ok::<
                        (Seq<FunctionView>, nat),
                        SyntaxErrorView,
                    >((function_views(functions@) + rest, (self@.position - start + m) as nat)),
                    Err(e) => grammar::program(all, start) == Err::<
                        (Seq<FunctionView>, nat),
                        SyntaxErrorView,
                    >(e),
                },
            ensures
                self@.tokens == all,
                grammar::program(all, start) == Ok::<(Seq<FunctionView>, nat), SyntaxErrorView>(
                    (function_views(functions@), (self@.position - start) as nat),
                ),
            decreases grammar::remaining(all, self@.position),
        {
            let ghost before = function_views(functions@);
            let kind = match self.tokens.get_current_token() {
                Some(token) => token.token_type,
                None => {
                    assert(before + Seq::<FunctionView>::empty() =~= before);
                    break;
                },
            };
            match kind {
                TokenType::TokEof => {
                    assert(before + Seq::<FunctionView>::empty() =~= before);
                    break;
                },
                TokenType::TokDef => {
                    let function = match Function::visit(&mut self.tokens) {
                        Err(e) => {
                            return Err(e);
                        },
                        Ok(function) => function,
                    };
                    let ghost first = function@;
                    functions.push(function);
                    assert(function_views(functions@) =~= before.push(first));
                    assert forall|rest: Seq<FunctionView>|
                        before + (seq![first] + rest) =~= #[trigger] (function_views(functions@)
                            + rest) by {}
                },
                _ => match self.tokens.get_current_token() {
                    Some(token) => {
                        return Err(
                            SyntaxError::InvalidToken {
                                actual: token.duplicate(),
                                position: self.tokens.position(),
                            },
                        );
                    },
                    None => vstd::pervasive::unreached(),
                },
            }
        }
        Ok(Program { functions })
    }
}

} // verus!
