//! Traversal of the syntax tree.
//!
//! A tree hands its nodes to a visitor in pre-order: a node first, then all
//! that it owns, from left to right. The order is fixed by the tree; a
//! visitor only says what meeting one node does to it.

use crate::parser::{
    lemma_call_view, lemma_conditional_view, BinaryExpression, ConditionalScopeStatement,
    DefinitionScopeStatement, Expression, ExpressionView, Function, FunctionCallExpression,
    FunctionDeclaration, FunctionDeclarationView, FunctionView, IdentifierExpression,
    NumberLiteralExpression, Program, ReturnScopeStatement, Scope, ScopeStatement,
    ScopeStatementView,
};
use vstd::prelude::*;

verus! {

/// A node as a visitor meets it: which method is called, and with what.
pub enum NodeView {
    Program(Seq<FunctionView>),
    Function(FunctionView),
    FunctionDeclaration(FunctionDeclarationView),
    Scope(Seq<ScopeStatementView>),
    ConditionalStatement(ScopeStatementView),
    DefinitionStatement(ScopeStatementView),
    ReturnStatement(ScopeStatementView),
    BinaryExpression(ExpressionView),
    Identifier(ExpressionView),
    NumberLiteral(ExpressionView),
    FunctionCall(ExpressionView),
}

/// The nodes of an expression in pre-order.
pub open spec fn expression_nodes(expression: ExpressionView) -> Seq<NodeView>
    decreases expression, 1nat,
{
    match expression {
        ExpressionView::Binary { lhs, rhs, .. } => seq![NodeView::BinaryExpression(expression)]
            + expression_nodes(*lhs) + expression_nodes(*rhs),
        ExpressionView::NumberLiteral { .. } => seq![NodeView::NumberLiteral(expression)],
        ExpressionView::Identifier { .. } => seq![NodeView::Identifier(expression)],
        ExpressionView::FunctionCall { args, .. } => seq![NodeView::FunctionCall(expression)]
            + argument_nodes(args, args.len()),
    }
}

/// The nodes of the first `count` of `arguments`, one argument after the
/// other.
pub open spec fn argument_nodes(arguments: Seq<ExpressionView>, count: nat) -> Seq<NodeView>
    decreases arguments, 0nat, count,
{
    if count == 0 || count > arguments.len() {
        Seq::empty()
    } else {
        argument_nodes(arguments, (count - 1) as nat) + expression_nodes(arguments[count - 1])
    }
}

/// The nodes of a statement in pre-order.
pub open spec fn statement_nodes(statement: ScopeStatementView) -> Seq<NodeView>
    decreases statement, 2nat, 0nat,
{
    match statement {
        ScopeStatementView::Definition {
            rvalue_expression,
            ..
        } => seq![NodeView::DefinitionStatement(statement)] + expression_nodes(rvalue_expression),
        ScopeStatementView::Return { return_expr } => seq![NodeView::ReturnStatement(statement)]
            + expression_nodes(return_expr),
        ScopeStatementView::Conditional {
            condition,
            body,
            alternative,
        } => seq![NodeView::ConditionalStatement(statement)] + expression_nodes(condition)
            + scope_nodes(body) + match alternative {
            Some(scope) => scope_nodes(scope),
            None => Seq::empty(),
        },
    }
}

/// The nodes of a scope in pre-order: the scope, then its statements.
pub open spec fn scope_nodes(scope: Seq<ScopeStatementView>) -> Seq<NodeView>
    decreases scope, 1nat, 0nat,
{
    seq![NodeView::Scope(scope)] + block_nodes(scope, scope.len())
}

/// The nodes of the first `count` statements of `scope`, one statement after
/// the other.
pub open spec fn block_nodes(scope: Seq<ScopeStatementView>, count: nat) -> Seq<NodeView>
    decreases scope, 0nat, count,
{
    if count == 0 || count > scope.len() {
        Seq::empty()
    } else {
        block_nodes(scope, (count - 1) as nat) + statement_nodes(scope[count - 1])
    }
}

/// The nodes of a function in pre-order: the function, its declaration, its
/// body.
pub open spec fn function_nodes(function: FunctionView) -> Seq<NodeView> {
    seq![NodeView::Function(function), NodeView::FunctionDeclaration(function.declaration)]
        + scope_nodes(function.body)
}

/// The nodes of the first `count` of `functions`, one function after the
/// other.
pub open spec fn functions_nodes(functions: Seq<FunctionView>, count: nat) -> Seq<NodeView>
    decreases count,
{
    if count == 0 || count > functions.len() {
        Seq::empty()
    } else {
        functions_nodes(functions, (count - 1) as nat) + function_nodes(functions[count - 1])
    }
}

/// The nodes of a program in pre-order: the program, then its functions.
pub open spec fn program_nodes(program: Seq<FunctionView>) -> Seq<NodeView> {
    seq![NodeView::Program(program)] + functions_nodes(program, program.len())
}

/// What consumes a tree: one method for each kind of node.
///
/// A visitor is described by what meeting a node does to its view. A method
/// gets the node alone; what the node owns is brought by the tree, see
/// [`Walkable`].
pub trait ASTVisitor: View + Sized {
    /// The view of a visitor that had the view `state` and has met `node`.
    spec fn visited(state: Self::V, node: NodeView) -> Self::V;

    fn visit_program(&mut self, program: &Program)
        ensures
            final(self)@ == Self::visited(old(self)@, NodeView::Program(program@)),
    ;

    fn visit_function(&mut self, function: &Function)
        ensures
            final(self)@ == Self::visited(old(self)@, NodeView::Function(function@)),
    ;

    fn visit_function_declaration(&mut self, function_declaration: &FunctionDeclaration)
        ensures
            final(self)@ == Self::visited(
                old(self)@,
                NodeView::FunctionDeclaration(function_declaration@),
            ),
    ;

    fn visit_scope(&mut self, scope: &Scope)
        ensures
            final(self)@ == Self::visited(old(self)@, NodeView::Scope(scope@)),
    ;

    fn visit_conditional_statement(&mut self, conditional_statement: &ConditionalScopeStatement)
        ensures
            final(self)@ == Self::visited(
                old(self)@,
                NodeView::ConditionalStatement(conditional_statement@),
            ),
    ;

    fn visit_definition_statement(&mut self, definition_statement: &DefinitionScopeStatement)
        ensures
            final(self)@ == Self::visited(
                old(self)@,
                NodeView::DefinitionStatement(definition_statement@),
            ),
    ;

    fn visit_return_statement(&mut self, return_statement: &ReturnScopeStatement)
        ensures
            final(self)@ == Self::visited(
                old(self)@,
                NodeView::ReturnStatement(return_statement@),
            ),
    ;

    fn visit_binary_expression(&mut self, binary_expression: &BinaryExpression)
        ensures
            final(self)@ == Self::visited(
                old(self)@,
                NodeView::BinaryExpression(binary_expression@),
            ),
    ;

    fn visit_identifier(&mut self, identifier: &IdentifierExpression)
        ensures
            final(self)@ == Self::visited(old(self)@, NodeView::Identifier(identifier@)),
    ;

    fn visit_number_literal(&mut self, number_literal: &NumberLiteralExpression)
        ensures
            final(self)@ == Self::visited(old(self)@, NodeView::NumberLiteral(number_literal@)),
    ;

    fn visit_function_call(&mut self, function_call: &FunctionCallExpression)
        ensures
            final(self)@ == Self::visited(old(self)@, NodeView::FunctionCall(function_call@)),
    ;
}

/// The view of a visitor that had the view `state` and has met `nodes` one
/// after the other.
pub open spec fn replay<V: ASTVisitor>(nodes: Seq<NodeView>, state: V::V) -> V::V
    decreases nodes.len(),
{
    if nodes.len() == 0 {
        state
    } else {
        V::visited(replay::<V>(nodes.drop_last(), state), nodes.last())
    }
}

/// Meeting two runs of nodes in a row is meeting the first, then the second.
pub proof fn lemma_replay_concat<V: ASTVisitor>(
    first: Seq<NodeView>,
    second: Seq<NodeView>,
    state: V::V,
)
    ensures
        replay::<V>(first + second, state) == replay::<V>(second, replay::<V>(first, state)),
    decreases second.len(),
{
    if second.len() == 0 {
        assert(first + second =~= first);
    } else {
        assert((first + second).drop_last() =~= first + second.drop_last());
        assert((first + second).last() == second.last());
        lemma_replay_concat::<V>(first, second.drop_last(), state);
    }
}

/// Meeting a single node.
pub proof fn lemma_replay_one<V: ASTVisitor>(node: NodeView, state: V::V)
    ensures
        replay::<V>(seq![node], state) == V::visited(state, node),
{
    assert(seq![node].drop_last() =~= Seq::<NodeView>::empty());
    assert(replay::<V>(Seq::<NodeView>::empty(), state) == state);
}

/// What can be walked: a node that takes a visitor through itself and all
/// that it owns.
pub trait Walkable {
    /// The nodes under this one, itself first, in the order in which a
    /// visitor meets them.
    spec fn nodes(&self) -> Seq<NodeView>;

    /// Takes `visitor` through the nodes in pre-order.
    fn accept<V: ASTVisitor>(&self, visitor: &mut V)
        ensures
            final(visitor)@ == replay::<V>(self.nodes(), old(visitor)@),
    ;
}

impl Walkable for NumberLiteralExpression {
    open spec fn nodes(&self) -> Seq<NodeView> {
        expression_nodes(self@)
    }

    fn accept<V: ASTVisitor>(&self, visitor: &mut V) {
        proof {
            lemma_replay_one::<V>(NodeView::NumberLiteral(self@), visitor@);
        }
        visitor.visit_number_literal(self);
    }
}

impl Walkable for IdentifierExpression {
    open spec fn nodes(&self) -> Seq<NodeView> {
        expression_nodes(self@)
    }

    fn accept<V: ASTVisitor>(&self, visitor: &mut V) {
        proof {
            lemma_replay_one::<V>(NodeView::Identifier(self@), visitor@);
        }
        visitor.visit_identifier(self);
    }
}

impl Walkable for BinaryExpression {
    open spec fn nodes(&self) -> Seq<NodeView> {
        expression_nodes(self@)
    }

    fn accept<V: ASTVisitor>(&self, visitor: &mut V)
        decreases self,
    {
        let ghost node = seq![NodeView::BinaryExpression(self@)];
        proof {
            lemma_replay_one::<V>(NodeView::BinaryExpression(self@), visitor@);
            lemma_replay_concat::<V>(node, expression_nodes(self.lhs@), visitor@);
            lemma_replay_concat::<V>(
                node + expression_nodes(self.lhs@),
                expression_nodes(self.rhs@),
                visitor@,
            );
        }
        visitor.visit_binary_expression(self);
        self.lhs.accept(visitor);
        self.rhs.accept(visitor);
    }
}

impl Walkable for FunctionCallExpression {
    open spec fn nodes(&self) -> Seq<NodeView> {
        expression_nodes(self@)
    }

    fn accept<V: ASTVisitor>(&self, visitor: &mut V)
        decreases self,
    {
        let ghost node = seq![NodeView::FunctionCall(self@)];
        let ghost arguments = self@->FunctionCall_args;
        proof {
            lemma_replay_one::<V>(NodeView::FunctionCall(self@), visitor@);
        }
        visitor.visit_function_call(self);
        let mut i: usize = 0;
        while i < self.args.len()
            invariant
                i <= self.args.len(),
                arguments == crate::parser::expression_views(self.args@),
                visitor@ == replay::<V>(
                    argument_nodes(arguments, i as nat),
                    replay::<V>(node, old(visitor)@),
                ),
            decreases self.args.len() - i,
        {
            proof {
                lemma_replay_concat::<V>(
                    argument_nodes(arguments, i as nat),
                    expression_nodes(arguments[i as int]),
                    replay::<V>(node, old(visitor)@),
                );
            }
            self.args[i].accept(visitor);
            i += 1;
        }
        proof {
            lemma_replay_concat::<V>(
                node,
                argument_nodes(arguments, arguments.len()),
                old(visitor)@,
            );
        }
    }
}

impl Walkable for Expression {
    open spec fn nodes(&self) -> Seq<NodeView> {
        expression_nodes(self@)
    }

    fn accept<V: ASTVisitor>(&self, visitor: &mut V)
        decreases self,
    {
        match self {
            Expression::Binary(binary) => binary.accept(visitor),
            Expression::NumberLiteral(number_literal) => number_literal.accept(visitor),
            Expression::Identifier(identifier) => identifier.accept(visitor),
            Expression::FunctionCall(function_call) => {
                proof {
                    lemma_call_view(*function_call);
                }
                function_call.accept(visitor)
            },
        }
    }
}

impl Walkable for DefinitionScopeStatement {
    open spec fn nodes(&self) -> Seq<NodeView> {
        statement_nodes(self@)
    }

    fn accept<V: ASTVisitor>(&self, visitor: &mut V) {
        proof {
            lemma_replay_one::<V>(NodeView::DefinitionStatement(self@), visitor@);
            lemma_replay_concat::<V>(
                seq![NodeView::DefinitionStatement(self@)],
                expression_nodes(self.rvalue_expression@),
                visitor@,
            );
        }
        visitor.visit_definition_statement(self);
        self.rvalue_expression.accept(visitor);
    }
}

impl Walkable for ReturnScopeStatement {
    open spec fn nodes(&self) -> Seq<NodeView> {
        statement_nodes(self@)
    }

    fn accept<V: ASTVisitor>(&self, visitor: &mut V) {
        proof {
            lemma_replay_one::<V>(NodeView::ReturnStatement(self@), visitor@);
            lemma_replay_concat::<V>(
                seq![NodeView::ReturnStatement(self@)],
                expression_nodes(self.return_expr@),
                visitor@,
            );
        }
        visitor.visit_return_statement(self);
        self.return_expr.accept(visitor);
    }
}

impl Walkable for ConditionalScopeStatement {
    open spec fn nodes(&self) -> Seq<NodeView> {
        statement_nodes(self@)
    }

    fn accept<V: ASTVisitor>(&self, visitor: &mut V)
        decreases self,
    {
        let ghost node = seq![NodeView::ConditionalStatement(self@)];
        let ghost condition = expression_nodes(self.condition@);
        let ghost body = scope_nodes(self.body@);
        proof {
            lemma_replay_one::<V>(NodeView::ConditionalStatement(self@), visitor@);
            lemma_replay_concat::<V>(node, condition, visitor@);
            lemma_replay_concat::<V>(node + condition, body, visitor@);
        }
        visitor.visit_conditional_statement(self);
        self.condition.accept(visitor);
        self.body.accept(visitor);
        match &self.alternative {
            Some(scope) => {
                proof {
                    lemma_replay_concat::<V>(
                        node + condition + body,
                        scope_nodes(scope@),
                        old(visitor)@,
                    );
                }
                scope.accept(visitor);
            },
            None => {
                assert(node + condition + body + Seq::<NodeView>::empty() =~= node + condition
                    + body);
            },
        }
    }
}

impl Walkable for ScopeStatement {
    open spec fn nodes(&self) -> Seq<NodeView> {
        statement_nodes(self@)
    }

    fn accept<V: ASTVisitor>(&self, visitor: &mut V)
        decreases self,
    {
        match self {
            ScopeStatement::Definition(definition) => definition.accept(visitor),
            ScopeStatement::Return(ret) => ret.accept(visitor),
            ScopeStatement::Conditional(conditional) => {
                proof {
                    lemma_conditional_view(*conditional);
                }
                conditional.accept(visitor)
            },
        }
    }
}

impl Walkable for Scope {
    open spec fn nodes(&self) -> Seq<NodeView> {
        scope_nodes(self@)
    }

    fn accept<V: ASTVisitor>(&self, visitor: &mut V)
        decreases self,
    {
        let ghost node = seq![NodeView::Scope(self@)];
        proof {
            lemma_replay_one::<V>(NodeView::Scope(self@), visitor@);
        }
        visitor.visit_scope(self);
        let mut i: usize = 0;
        while i < self.blocks.len()
            invariant
                i <= self.blocks.len(),
                visitor@ == replay::<V>(
                    block_nodes(self@, i as nat),
                    replay::<V>(node, old(visitor)@),
                ),
            decreases self.blocks.len() - i,
        {
            proof {
                lemma_replay_concat::<V>(
                    block_nodes(self@, i as nat),
                    statement_nodes(self@[i as int]),
                    replay::<V>(node, old(visitor)@),
                );
            }
            self.blocks[i].accept(visitor);
            i += 1;
        }
        proof {
            lemma_replay_concat::<V>(node, block_nodes(self@, self@.len()), old(visitor)@);
        }
    }
}

impl Walkable for FunctionDeclaration {
    open spec fn nodes(&self) -> Seq<NodeView> {
        seq![NodeView::FunctionDeclaration(self@)]
    }

    fn accept<V: ASTVisitor>(&self, visitor: &mut V) {
        proof {
            lemma_replay_one::<V>(NodeView::FunctionDeclaration(self@), visitor@);
        }
        visitor.visit_function_declaration(self);
    }
}

impl Walkable for Function {
    open spec fn nodes(&self) -> Seq<NodeView> {
        function_nodes(self@)
    }

    fn accept<V: ASTVisitor>(&self, visitor: &mut V) {
        let ghost function = seq![NodeView::Function(self@)];
        let ghost declaration = seq![NodeView::FunctionDeclaration(self.declaration@)];
        proof {
            lemma_replay_one::<V>(NodeView::Function(self@), visitor@);
            lemma_replay_concat::<V>(function, declaration, visitor@);
            lemma_replay_concat::<V>(function + declaration, scope_nodes(self.body@), visitor@);
            assert(function + declaration =~= seq![
                NodeView::Function(self@),
                NodeView::FunctionDeclaration(self.declaration@),
            ]);
        }
        visitor.visit_function(self);
        self.declaration.accept(visitor);
        self.body.accept(visitor);
    }
}

impl Walkable for Program {
    open spec fn nodes(&self) -> Seq<NodeView> {
        program_nodes(self@)
    }

    fn accept<V: ASTVisitor>(&self, visitor: &mut V) {
        let ghost node = seq![NodeView::Program(self@)];
        proof {
            lemma_replay_one::<V>(NodeView::Program(self@), visitor@);
        }
        visitor.visit_program(self);
        let mut i: usize = 0;
        while i < self.functions.len()
            invariant
                i <= self.functions.len(),
                visitor@ == replay::<V>(
                    functions_nodes(self@, i as nat),
                    replay::<V>(node, old(visitor)@),
                ),
            decreases self.functions.len() - i,
        {
            proof {
                lemma_replay_concat::<V>(
                    functions_nodes(self@, i as nat),
                    function_nodes(self@[i as int]),
                    replay::<V>(node, old(visitor)@),
                );
            }
            self.functions[i].accept(visitor);
            i += 1;
        }
        proof {
            lemma_replay_concat::<V>(node, functions_nodes(self@, self@.len()), old(visitor)@);
        }
    }
}

} // verus!
