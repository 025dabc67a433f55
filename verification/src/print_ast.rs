//! A visitor that writes the tree down, one node under the other, each
//! indented by four columns for every node above it.

use crate::parser::{
    BinaryExpression, ConditionalScopeStatement, DefinitionScopeStatement, ExpressionView,
    Function, FunctionCallExpression, FunctionDeclaration, FunctionView, IdentifierExpression,
    NumberLiteralExpression, Program, ReturnScopeStatement, Scope, ScopeStatementView,
};
use crate::visitor::{
    argument_nodes, block_nodes, expression_nodes, function_nodes, functions_nodes,
    lemma_replay_concat, lemma_replay_one, program_nodes, replay, scope_nodes, statement_nodes,
    ASTVisitor, NodeView,
};
use vstd::prelude::*;

verus! {

/// The printer. It gathers the lines of its output; writing them out is left
/// to the caller.
///
/// A visitor is told of nodes, not of depths. The printer knows how many
/// nodes each node that it has met owns, and so keeps count, for every node
/// that is still open, of the owned nodes that are yet to come.
pub struct PrintAST {
    /// The depth at which the first node is printed.
    call_depth: usize,
    /// For each open node, outermost first, the owned nodes yet to come.
    pending: Vec<usize>,
    lines: Vec<String>,
}

/// What a [`PrintAST`] stands for in contracts.
pub struct PrintASTView {
    pub call_depth: nat,
    pub pending: Seq<nat>,
    pub lines: Seq<Seq<char>>,
}

impl PrintASTView {
    /// The depth at which the next node is printed.
    pub open spec fn depth(self) -> nat {
        self.call_depth + self.pending.len()
    }
}

/// The counts `pending`, as numbers without bound.
pub open spec fn counts(pending: Seq<usize>) -> Seq<nat> {
    Seq::new(pending.len(), |i: int| pending[i] as nat)
}

impl View for PrintAST {
    type V = PrintASTView;

    closed spec fn view(&self) -> PrintASTView {
        PrintASTView {
            call_depth: self.call_depth as nat,
            pending: counts(self.pending@),
            lines: self.lines.deep_view(),
        }
    }
}

/// `width` blanks.
pub open spec fn blanks(width: nat) -> Seq<char> {
    Seq::new(width, |i: int| ' ')
}

/// A line of output: `text` behind a margin of `width` columns and one blank
/// more.
pub open spec fn line(width: nat, text: Seq<char>) -> Seq<char> {
    blanks(width) + seq![' '] + text
}

/// The first `count` of `names`, each in double quotes, separated by a comma
/// and a blank.
pub open spec fn listed(names: Seq<Seq<char>>, count: nat) -> Seq<char>
    decreases count,
{
    if count == 0 || count > names.len() {
        Seq::empty()
    } else if count == 1 {
        seq!['"'] + names[0] + seq!['"']
    } else {
        listed(names, (count - 1) as nat) + seq![',', ' '] + seq!['"'] + names[count - 1] + seq![
            '"',
        ]
    }
}

/// The number of nodes that `node` owns directly.
pub open spec fn arity(node: NodeView) -> nat {
    match node {
        NodeView::Program(functions) => functions.len(),
        NodeView::Function(_) => 2,
        NodeView::FunctionDeclaration(_) => 0,
        NodeView::Scope(statements) => statements.len(),
        NodeView::ConditionalStatement(statement) => match statement {
            ScopeStatementView::Conditional { alternative: Some(_), .. } => 3,
            _ => 2,
        },
        NodeView::DefinitionStatement(_) => 1,
        NodeView::ReturnStatement(_) => 1,
        NodeView::BinaryExpression(_) => 2,
        NodeView::Identifier(_) => 0,
        NodeView::NumberLiteral(_) => 0,
        NodeView::FunctionCall(expression) => match expression {
            ExpressionView::FunctionCall { args, .. } => args.len(),
            _ => 0,
        },
    }
}

/// The lines that the printer writes for `node` alone, met at `depth`.
pub open spec fn node_lines(node: NodeView, depth: nat) -> Seq<Seq<char>> {
    let margin = 4 * depth;
    match node {
        NodeView::Program(_) => seq![line(margin, "Program"@)],
        NodeView::Function(_) => seq![line(margin, "Function"@)],
        NodeView::FunctionDeclaration(declaration) => seq![
            line(margin, "Function Declaration"@),
            line(margin + 4, "Name: "@ + declaration.name),
            line(
                margin + 4,
                "Args: "@ + seq!['['] + listed(declaration.args, declaration.args.len()) + seq![
                    ']',
                ],
            ),
        ],
        NodeView::Scope(_) => seq![line(margin, "Scope"@)],
        NodeView::ConditionalStatement(_) => seq![line(margin, "ConditionalScopeStatement"@)],
        NodeView::DefinitionStatement(statement) => seq![
            line(margin, "DefinitionScopeStatement"@),
            line(
                margin + 4,
                "Lvalue Identifier: "@ + match statement {
                    ScopeStatementView::Definition { lvalue_identifier, .. } => lvalue_identifier,
                    _ => Seq::empty(),
                },
            ),
        ],
        NodeView::ReturnStatement(_) => seq![line(margin, "ReturnScopeStatement"@)],
        NodeView::BinaryExpression(_) => seq![line(margin, "BinaryExpression"@)],
        NodeView::NumberLiteral(expression) => seq![
            line(margin, "NumberLiteralExpr"@),
            line(
                margin + 4,
                "Value: "@ + match expression {
                    ExpressionView::NumberLiteral { value } => value,
                    _ => Seq::empty(),
                },
            ),
        ],
        NodeView::Identifier(expression) => seq![
            line(margin, "IdentifierExpression"@),
            line(
                margin,
                "Name: "@ + match expression {
                    ExpressionView::Identifier { name } => name,
                    _ => Seq::empty(),
                },
            ),
        ],
        NodeView::FunctionCall(expression) => seq![
            line(margin, "FunctionCallExpression"@),
            line(
                margin + 4,
                "Name: "@ + match expression {
                    ExpressionView::FunctionCall { name, .. } => name,
                    _ => Seq::empty(),
                },
            ),
        ],
    }
}

/// `pending` without the open nodes at its end that have nothing to come.
pub open spec fn closed_off(pending: Seq<nat>) -> Seq<nat>
    decreases pending.len(),
{
    if pending.len() > 0 && pending.last() == 0 {
        closed_off(pending.drop_last())
    } else {
        pending
    }
}

/// `pending` with the innermost open node counted down by one.
pub open spec fn counted_down(pending: Seq<nat>) -> Seq<nat> {
    if pending.len() > 0 && pending.last() > 0 {
        pending.update(pending.len() - 1, (pending.last() - 1) as nat)
    } else {
        pending
    }
}

/// What becomes of `pending` when a node that owns `owned` nodes is met:
/// the node is one of those that its owner was waiting for; it is open itself
/// where it owns anything, and where it does not, it may have been the last
/// that the nodes above it were waiting for.
pub open spec fn settled(pending: Seq<nat>, owned: nat) -> Seq<nat> {
    if owned > 0 {
        counted_down(pending).push(owned)
    } else {
        closed_off(counted_down(pending))
    }
}

impl PrintAST {
    /// A printer that has written nothing and prints its first node at
    /// `call_depth`.
    pub fn new(call_depth: usize) -> (printer: PrintAST)
        ensures
            printer@ == (PrintASTView {
                call_depth: call_depth as nat,
                pending: Seq::empty(),
                lines: Seq::empty(),
            }),
    {
        let printer = PrintAST { call_depth, pending: Vec::new(), lines: Vec::new() };
        assert(printer@.pending =~= Seq::<nat>::empty());
        assert(printer@.lines =~= Seq::<Seq<char>>::empty());
        printer
    }

    /// The depth at which the first node is printed.
    pub fn call_depth(&self) -> (call_depth: usize)
        ensures
            call_depth == self@.call_depth,
    {
        self.call_depth
    }

    /// The width of the margin in front of the next node.
    pub fn get_padding(&self) -> (padding: usize)
        requires
            4 * self@.depth() <= usize::MAX,
        ensures
            padding == 4 * self@.depth(),
    {
        (self.call_depth + self.pending.len()) * 4
    }

    /// The lines written so far.
    pub fn lines(&self) -> (lines: &Vec<String>)
        ensures
            lines.deep_view() == self@.lines,
    {
        &self.lines
    }

    /// Hands over the lines written.
    pub fn into_lines(self) -> (lines: Vec<String>)
        ensures
            lines.deep_view() == self@.lines,
    {
        self.lines
    }

    /// A margin of four columns for each of `levels`.
    fn margin(levels: usize) -> (margin: String)
        ensures
            margin@ == blanks(4 * levels as nat),
    {
        let mut margin = String::new();
        let mut level: usize = 0;
        assert(margin@ =~= blanks(0));
        while level < levels
            invariant
                level <= levels,
                margin@ == blanks(4 * level as nat),
            decreases levels - level,
        {
            proof {
                reveal_strlit("    ");
                assert(blanks(4 * level as nat) + "    "@ =~= blanks(4 * (level + 1) as nat));
            }
            margin.append("    ");
            level += 1;
        }
        margin
    }

    /// Writes `text` as a line at the depth of the next node, one level
    /// deeper where `inner` is set.
    fn write_line(&mut self, inner: bool, text: &str)
        ensures
            final(self)@.call_depth == old(self)@.call_depth,
            final(self)@.pending == old(self)@.pending,
            final(self)@.lines == old(self)@.lines.push(
                line(
                    if inner {
                        4 * old(self)@.depth() + 4
                    } else {
                        4 * old(self)@.depth()
                    },
                    text@,
                ),
            ),
    {
        let ghost before = self.lines.deep_view();
        let mut written = PrintAST::margin(self.call_depth);
        written.append(PrintAST::margin(self.pending.len()).as_str());
        if inner {
            written.append("    ");
        }
        written.append(" ");
        written.append(text);
        proof {
            reveal_strlit("    ");
            reveal_strlit(" ");
            let depth = self@.depth();
            assert(blanks(4 * self.call_depth as nat) + blanks(4 * self.pending.len() as nat)
                =~= blanks(4 * depth));
            assert(blanks(4 * depth) + "    "@ =~= blanks(4 * depth + 4));
            assert(" "@ =~= seq![' ']);
        }
        self.lines.push(written);
        assert(self.lines.deep_view() =~= before.push(written@));
    }

    /// Takes note that a node which owns `owned` nodes has been met.
    fn settle(&mut self, owned: usize)
        ensures
            final(self)@.call_depth == old(self)@.call_depth,
            final(self)@.lines == old(self)@.lines,
            final(self)@.pending == settled(old(self)@.pending, owned as nat),
    {
        let ghost before = counts(self.pending@);
        let open = self.pending.len();
        if open > 0 && self.pending[open - 1] > 0 {
            let waiting = self.pending[open - 1];
            self.pending.set(open - 1, waiting - 1);
        }
        assert(counts(self.pending@) =~= counted_down(before));
        if owned > 0 {
            self.pending.push(owned);
            assert(counts(self.pending@) =~= counted_down(before).push(owned as nat));
        } else {
            while self.pending.len() > 0 && self.pending[self.pending.len() - 1] == 0
                invariant
                    self.call_depth == old(self).call_depth,
                    self.lines == old(self).lines,
                    closed_off(counts(self.pending@)) == closed_off(counted_down(before)),
                decreases self.pending.len(),
            {
                let ghost longer = counts(self.pending@);
                self.pending.pop();
                assert(counts(self.pending@) =~= longer.drop_last());
            }
        }
    }

    /// The names of `args` as a list in square brackets.
    fn list(args: &Vec<String>) -> (text: String)
        ensures
            text@ == seq!['['] + listed(args.deep_view(), args.len() as nat) + seq![']'],
    {
        let ghost names = args.deep_view();
        let mut text = String::from_str("[");
        proof {
            reveal_strlit("[");
            assert(text@ =~= seq!['['] + listed(names, 0));
        }
        let mut i: usize = 0;
        while i < args.len()
            invariant
                i <= args.len(),
                names == args.deep_view(),
                text@ == seq!['['] + listed(names, i as nat),
            decreases args.len() - i,
        {
            let ghost so_far = text@;
            if i > 0 {
                text.append(", ");
            }
            text.append("\"");
            text.append(args[i].as_str());
            text.append("\"");
            proof {
                reveal_strlit(", ");
                reveal_strlit("\"");
                assert(", "@ =~= seq![',', ' ']);
                assert("\""@ =~= seq!['"']);
                assert(names[i as int] == args[i as int]@);
                assert(text@ =~= seq!['['] + listed(names, (i + 1) as nat));
            }
            i += 1;
        }
        text.append("]");
        proof {
            reveal_strlit("]");
            assert(text@ =~= seq!['['] + listed(names, args.len() as nat) + seq![']']);
        }
        text
    }
}

impl ASTVisitor for PrintAST {
    open spec fn visited(state: PrintASTView, node: NodeView) -> PrintASTView {
        PrintASTView {
            call_depth: state.call_depth,
            pending: settled(state.pending, arity(node)),
            lines: state.lines + node_lines(node, state.depth()),
        }
    }

    fn visit_program(&mut self, program: &Program) {
        let ghost written = self@.lines;
        self.write_line(false, "Program");
        self.settle(program.functions.len());
        assert(self@.lines =~= written + node_lines(NodeView::Program(program@), old(self)@.depth()));
    }

    fn visit_function(&mut self, function: &Function) {
        let ghost written = self@.lines;
        self.write_line(false, "Function");
        self.settle(2);
        assert(self@.lines =~= written + node_lines(
            NodeView::Function(function@),
            old(self)@.depth(),
        ));
    }

    fn visit_function_declaration(&mut self, function_declaration: &FunctionDeclaration) {
        let ghost written = self@.lines;
        self.write_line(false, "Function Declaration");
        let mut name = String::from_str("Name: ");
        name.append(function_declaration.name.as_str());
        self.write_line(true, name.as_str());
        let mut args = String::from_str("Args: ");
        args.append(PrintAST::list(&function_declaration.args).as_str());
        assert(args@ =~= "Args: "@ + seq!['['] + listed(
            function_declaration@.args,
            function_declaration@.args.len(),
        ) + seq![']']);
        self.write_line(true, args.as_str());
        self.settle(0);
        assert(self@.lines =~= written + node_lines(
            NodeView::FunctionDeclaration(function_declaration@),
            old(self)@.depth(),
        ));
    }

    fn visit_scope(&mut self, scope: &Scope) {
        let ghost written = self@.lines;
        self.write_line(false, "Scope");
        self.settle(scope.blocks.len());
        assert(self@.lines =~= written + node_lines(NodeView::Scope(scope@), old(self)@.depth()));
    }

    fn visit_conditional_statement(&mut self, conditional_statement: &ConditionalScopeStatement) {
        let ghost written = self@.lines;
        self.write_line(false, "ConditionalScopeStatement");
        match &conditional_statement.alternative {
            Some(_) => self.settle(3),
            None => self.settle(2),
        }
        assert(self@.lines =~= written + node_lines(
            NodeView::ConditionalStatement(conditional_statement@),
            old(self)@.depth(),
        ));
    }

    fn visit_definition_statement(&mut self, definition_statement: &DefinitionScopeStatement) {
        let ghost written = self@.lines;
        self.write_line(false, "DefinitionScopeStatement");
        let mut lvalue = String::from_str("Lvalue Identifier: ");
        lvalue.append(definition_statement.lvalue_identifier.as_str());
        self.write_line(true, lvalue.as_str());
        self.settle(1);
        assert(self@.lines =~= written + node_lines(
            NodeView::DefinitionStatement(definition_statement@),
            old(self)@.depth(),
        ));
    }

    fn visit_return_statement(&mut self, return_statement: &ReturnScopeStatement) {
        let ghost written = self@.lines;
        self.write_line(false, "ReturnScopeStatement");
        self.settle(1);
        assert(self@.lines =~= written + node_lines(
            NodeView::ReturnStatement(return_statement@),
            old(self)@.depth(),
        ));
    }

    fn visit_binary_expression(&mut self, binary_expression: &BinaryExpression) {
        let ghost written = self@.lines;
        self.write_line(false, "BinaryExpression");
        self.settle(2);
        assert(self@.lines =~= written + node_lines(
            NodeView::BinaryExpression(binary_expression@),
            old(self)@.depth(),
        ));
    }

    fn visit_identifier(&mut self, identifier: &IdentifierExpression) {
        let ghost written = self@.lines;
        self.write_line(false, "IdentifierExpression");
        let mut name = String::from_str("Name: ");
        name.append(identifier.name.as_str());
        self.write_line(false, name.as_str());
        self.settle(0);
        assert(self@.lines =~= written + node_lines(
            NodeView::Identifier(identifier@),
            old(self)@.depth(),
        ));
    }

    fn visit_number_literal(&mut self, number_literal: &NumberLiteralExpression) {
        let ghost written = self@.lines;
        self.write_line(false, "NumberLiteralExpr");
        let mut value = String::from_str("Value: ");
        value.append(number_literal.value.as_str());
        self.write_line(true, value.as_str());
        self.settle(0);
        assert(self@.lines =~= written + node_lines(
            NodeView::NumberLiteral(number_literal@),
            old(self)@.depth(),
        ));
    }

    fn visit_function_call(&mut self, function_call: &FunctionCallExpression) {
        let ghost written = self@.lines;
        self.write_line(false, "FunctionCallExpression");
        let mut name = String::from_str("Name: ");
        name.append(function_call.name.as_str());
        self.write_line(true, name.as_str());
        self.settle(function_call.args.len());
        assert(self@.lines =~= written + node_lines(
            NodeView::FunctionCall(function_call@),
            old(self)@.depth(),
        ));
    }
}

/// The lines of an expression printed at `depth`: its own, then those of all
/// that it owns, one level deeper.
pub open spec fn expression_lines(expression: ExpressionView, depth: nat) -> Seq<Seq<char>>
    decreases expression, 1nat,
{
    match expression {
        ExpressionView::Binary { lhs, rhs, .. } => node_lines(
            NodeView::BinaryExpression(expression),
            depth,
        ) + expression_lines(*lhs, depth + 1) + expression_lines(*rhs, depth + 1),
        ExpressionView::NumberLiteral { .. } => node_lines(
            NodeView::NumberLiteral(expression),
            depth,
        ),
        ExpressionView::Identifier { .. } => node_lines(NodeView::Identifier(expression), depth),
        ExpressionView::FunctionCall { args, .. } => node_lines(
            NodeView::FunctionCall(expression),
            depth,
        ) + argument_lines(args, args.len(), depth + 1),
    }
}

/// The lines of the first `count` of `arguments`, each printed at `depth`.
pub open spec fn argument_lines(arguments: Seq<ExpressionView>, count: nat, depth: nat) -> Seq<
    Seq<char>,
>
    decreases arguments, 0nat, count,
{
    if count == 0 || count > arguments.len() {
        Seq::empty()
    } else {
        argument_lines(arguments, (count - 1) as nat, depth) + expression_lines(
            arguments[count - 1],
            depth,
        )
    }
}

/// The lines of a statement printed at `depth`.
pub open spec fn statement_lines(statement: ScopeStatementView, depth: nat) -> Seq<Seq<char>>
    decreases statement, 2nat, 0nat,
{
    match statement {
        ScopeStatementView::Definition { rvalue_expression, .. } => node_lines(
            NodeView::DefinitionStatement(statement),
            depth,
        ) + expression_lines(rvalue_expression, depth + 1),
        ScopeStatementView::Return { return_expr } => node_lines(
            NodeView::ReturnStatement(statement),
            depth,
        ) + expression_lines(return_expr, depth + 1),
        ScopeStatementView::Conditional { condition, body, alternative } => node_lines(
            NodeView::ConditionalStatement(statement),
            depth,
        ) + expression_lines(condition, depth + 1) + scope_lines(body, depth + 1)
            + match alternative {
            Some(scope) => scope_lines(scope, depth + 1),
            None => Seq::empty(),
        },
    }
}

/// The lines of a scope printed at `depth`.
pub open spec fn scope_lines(scope: Seq<ScopeStatementView>, depth: nat) -> Seq<Seq<char>>
    decreases scope, 1nat, 0nat,
{
    node_lines(NodeView::Scope(scope), depth) + block_lines(scope, scope.len(), depth + 1)
}

/// The lines of the first `count` statements of `scope`, each printed at
/// `depth`.
pub open spec fn block_lines(scope: Seq<ScopeStatementView>, count: nat, depth: nat) -> Seq<
    Seq<char>,
>
    decreases scope, 0nat, count,
{
    if count == 0 || count > scope.len() {
        Seq::empty()
    } else {
        block_lines(scope, (count - 1) as nat, depth) + statement_lines(scope[count - 1], depth)
    }
}

/// The lines of a function printed at `depth`.
pub open spec fn function_lines(function: FunctionView, depth: nat) -> Seq<Seq<char>> {
    node_lines(NodeView::Function(function), depth) + node_lines(
        NodeView::FunctionDeclaration(function.declaration),
        depth + 1,
    ) + scope_lines(function.body, depth + 1)
}

/// The lines of the first `count` of `functions`, each printed at `depth`.
pub open spec fn functions_lines(functions: Seq<FunctionView>, count: nat, depth: nat) -> Seq<
    Seq<char>,
>
    decreases count,
{
    if count == 0 || count > functions.len() {
        Seq::empty()
    } else {
        functions_lines(functions, (count - 1) as nat, depth) + function_lines(
            functions[count - 1],
            depth,
        )
    }
}

/// The lines of a program printed at `depth`.
pub open spec fn program_lines(program: Seq<FunctionView>, depth: nat) -> Seq<Seq<char>> {
    node_lines(NodeView::Program(program), depth) + functions_lines(
        program,
        program.len(),
        depth + 1,
    )
}

/// Tells whether the printer awaits a node: no node is open, or the
/// innermost open node has nodes to come.
pub open spec fn awaits(state: PrintASTView) -> bool {
    state.pending.len() == 0 || state.pending.last() > 0
}

/// The printer that was `state` and has since written `lines` for one node
/// and all that the node owns.
pub open spec fn printed(state: PrintASTView, lines: Seq<Seq<char>>) -> PrintASTView {
    PrintASTView {
        call_depth: state.call_depth,
        pending: closed_off(counted_down(state.pending)),
        lines: state.lines + lines,
    }
}

/// The printer that has met a node owning `owned` nodes, and has been taken
/// through `done` of them.
pub open spec fn inside(
    state: PrintASTView,
    owned: nat,
    done: nat,
    lines: Seq<Seq<char>>,
) -> PrintASTView {
    PrintASTView {
        call_depth: state.call_depth,
        pending: if done < owned {
            counted_down(state.pending).push((owned - done) as nat)
        } else {
            closed_off(counted_down(state.pending))
        },
        lines: state.lines + lines,
    }
}

/// Meeting a node opens it.
proof fn lemma_opened(state: PrintASTView, node: NodeView)
    ensures
        PrintAST::visited(state, node) == inside(
            state,
            arity(node),
            0,
            node_lines(node, state.depth()),
        ),
{
}

/// One owned node more: a printer inside a node, taken through a node that
/// the open one owns, is one node further inside.
proof fn lemma_one_further(
    state: PrintASTView,
    owned: nat,
    done: nat,
    lines: Seq<Seq<char>>,
    more: Seq<Seq<char>>,
)
    requires
        done < owned,
    ensures
        awaits(inside(state, owned, done, lines)),
        inside(state, owned, done, lines).depth() == state.depth() + 1,
        printed(inside(state, owned, done, lines), more) == inside(
            state,
            owned,
            done + 1,
            lines + more,
        ),
{
    let base = counted_down(state.pending);
    let waiting = (owned - done) as nat;
    let open = base.push(waiting);
    assert(counted_down(open) =~= base.push((waiting - 1) as nat));
    assert(base.push((waiting - 1) as nat).drop_last() =~= base);
    assert(state.lines + lines + more =~= state.lines + (lines + more));
}

/// A printer inside a node that has been taken through all that the node
/// owns has printed the node.
proof fn lemma_closed(state: PrintASTView, owned: nat, lines: Seq<Seq<char>>)
    ensures
        inside(state, owned, owned, lines) == printed(state, lines),
{
}

/// The printer writes an expression down: taken through an expression, it
/// has written the lines of the expression at the depth at which it met it.
pub proof fn lemma_prints_expression(expression: ExpressionView, state: PrintASTView)
    requires
        awaits(state),
    ensures
        replay::<PrintAST>(expression_nodes(expression), state) == printed(
            state,
            expression_lines(expression, state.depth()),
        ),
    decreases expression, 1nat,
{
    let depth = state.depth();
    match expression {
        ExpressionView::Binary { lhs, rhs, .. } => {
            let node = NodeView::BinaryExpression(expression);
            let own = node_lines(node, depth);
            let left = expression_lines(*lhs, depth + 1);
            let right = expression_lines(*rhs, depth + 1);
            lemma_replay_one::<PrintAST>(node, state);
            lemma_opened(state, node);
            lemma_replay_concat::<PrintAST>(seq![node], expression_nodes(*lhs), state);
            lemma_one_further(state, 2, 0, own, left);
            lemma_prints_expression(*lhs, inside(state, 2, 0, own));
            lemma_replay_concat::<PrintAST>(
                seq![node] + expression_nodes(*lhs),
                expression_nodes(*rhs),
                state,
            );
            lemma_one_further(state, 2, 1, own + left, right);
            lemma_prints_expression(*rhs, inside(state, 2, 1, own + left));
            lemma_closed(state, 2, own + left + right);
        },
        ExpressionView::NumberLiteral { .. } => {
            let node = NodeView::NumberLiteral(expression);
            lemma_replay_one::<PrintAST>(node, state);
            lemma_opened(state, node);
        },
        ExpressionView::Identifier { .. } => {
            let node = NodeView::Identifier(expression);
            lemma_replay_one::<PrintAST>(node, state);
            lemma_opened(state, node);
        },
        ExpressionView::FunctionCall { args, .. } => {
            let node = NodeView::FunctionCall(expression);
            let own = node_lines(node, depth);
            lemma_replay_one::<PrintAST>(node, state);
            lemma_opened(state, node);
            lemma_replay_concat::<PrintAST>(seq![node], argument_nodes(args, args.len()), state);
            lemma_prints_arguments(args, args.len(), state, own);
            lemma_closed(state, args.len(), own + argument_lines(args, args.len(), depth + 1));
        },
    }
}

/// The printer writes arguments down one after the other.
pub proof fn lemma_prints_arguments(
    arguments: Seq<ExpressionView>,
    count: nat,
    state: PrintASTView,
    lines: Seq<Seq<char>>,
)
    requires
        count <= arguments.len(),
    ensures
        replay::<PrintAST>(
            argument_nodes(arguments, count),
            inside(state, arguments.len(), 0, lines),
        ) == inside(
            state,
            arguments.len(),
            count,
            lines + argument_lines(arguments, count, state.depth() + 1),
        ),
    decreases arguments, 0nat, count,
{
    let owned = arguments.len();
    if count == 0 {
        assert(lines + Seq::<Seq<char>>::empty() =~= lines);
    } else {
        let before = (count - 1) as nat;
        let written = lines + argument_lines(arguments, before, state.depth() + 1);
        let more = expression_lines(arguments[count - 1], state.depth() + 1);
        lemma_prints_arguments(arguments, before, state, lines);
        lemma_replay_concat::<PrintAST>(
            argument_nodes(arguments, before),
            expression_nodes(arguments[count - 1]),
            inside(state, owned, 0, lines),
        );
        lemma_one_further(state, owned, before, written, more);
        lemma_prints_expression(arguments[count - 1], inside(state, owned, before, written));
        assert(written + more =~= lines + argument_lines(arguments, count, state.depth() + 1));
    }
}

/// The printer writes a statement down.
pub proof fn lemma_prints_statement(statement: ScopeStatementView, state: PrintASTView)
    requires
        awaits(state),
    ensures
        replay::<PrintAST>(statement_nodes(statement), state) == printed(
            state,
            statement_lines(statement, state.depth()),
        ),
    decreases statement, 2nat, 0nat,
{
    let depth = state.depth();
    match statement {
        ScopeStatementView::Definition { rvalue_expression, .. } => {
            let node = NodeView::DefinitionStatement(statement);
            let own = node_lines(node, depth);
            let value = expression_lines(rvalue_expression, depth + 1);
            lemma_replay_one::<PrintAST>(node, state);
            lemma_opened(state, node);
            lemma_replay_concat::<PrintAST>(
                seq![node],
                expression_nodes(rvalue_expression),
                state,
            );
            lemma_one_further(state, 1, 0, own, value);
            lemma_prints_expression(rvalue_expression, inside(state, 1, 0, own));
            lemma_closed(state, 1, own + value);
        },
        ScopeStatementView::Return { return_expr } => {
            let node = NodeView::ReturnStatement(statement);
            let own = node_lines(node, depth);
            let value = expression_lines(return_expr, depth + 1);
            lemma_replay_one::<PrintAST>(node, state);
            lemma_opened(state, node);
            lemma_replay_concat::<PrintAST>(seq![node], expression_nodes(return_expr), state);
            lemma_one_further(state, 1, 0, own, value);
            lemma_prints_expression(return_expr, inside(state, 1, 0, own));
            lemma_closed(state, 1, own + value);
        },
        ScopeStatementView::Conditional { condition, body, alternative } => {
            let node = NodeView::ConditionalStatement(statement);
            let owned = arity(node);
            let own = node_lines(node, depth);
            let asked = expression_lines(condition, depth + 1);
            let held = scope_lines(body, depth + 1);
            lemma_replay_one::<PrintAST>(node, state);
            lemma_opened(state, node);
            lemma_replay_concat::<PrintAST>(seq![node], expression_nodes(condition), state);
            lemma_one_further(state, owned, 0, own, asked);
            lemma_prints_expression(condition, inside(state, owned, 0, own));
            lemma_replay_concat::<PrintAST>(
                seq![node] + expression_nodes(condition),
                scope_nodes(body),
                state,
            );
            lemma_one_further(state, owned, 1, own + asked, held);
            lemma_prints_scope(body, inside(state, owned, 1, own + asked));
            match alternative {
                Some(scope) => {
                    let other = scope_lines(scope, depth + 1);
                    lemma_replay_concat::<PrintAST>(
                        seq![node] + expression_nodes(condition) + scope_nodes(body),
                        scope_nodes(scope),
                        state,
                    );
                    lemma_one_further(state, owned, 2, own + asked + held, other);
                    lemma_prints_scope(scope, inside(state, owned, 2, own + asked + held));
                    lemma_closed(state, owned, own + asked + held + other);
                },
                None => {
                    assert(seq![node] + expression_nodes(condition) + scope_nodes(body) + Seq::<
                        NodeView,
                    >::empty() =~= seq![node] + expression_nodes(condition) + scope_nodes(body));
                    assert(own + asked + held + Seq::<Seq<char>>::empty() =~= own + asked + held);
                    lemma_closed(state, owned, own + asked + held);
                },
            }
        },
    }
}

/// The printer writes a scope down.
pub proof fn lemma_prints_scope(scope: Seq<ScopeStatementView>, state: PrintASTView)
    requires
        awaits(state),
    ensures
        replay::<PrintAST>(scope_nodes(scope), state) == printed(
            state,
            scope_lines(scope, state.depth()),
        ),
    decreases scope, 1nat, 0nat,
{
    let node = NodeView::Scope(scope);
    let own = node_lines(node, state.depth());
    lemma_replay_one::<PrintAST>(node, state);
    lemma_opened(state, node);
    lemma_replay_concat::<PrintAST>(seq![node], block_nodes(scope, scope.len()), state);
    lemma_prints_block(scope, scope.len(), state, own);
    lemma_closed(state, scope.len(), own + block_lines(scope, scope.len(), state.depth() + 1));
}

/// The printer writes statements down one after the other.
pub proof fn lemma_prints_block(
    scope: Seq<ScopeStatementView>,
    count: nat,
    state: PrintASTView,
    lines: Seq<Seq<char>>,
)
    requires
        count <= scope.len(),
    ensures
        replay::<PrintAST>(block_nodes(scope, count), inside(state, scope.len(), 0, lines))
            == inside(
            state,
            scope.len(),
            count,
            lines + block_lines(scope, count, state.depth() + 1),
        ),
    decreases scope, 0nat, count,
{
    let owned = scope.len();
    if count == 0 {
        assert(lines + Seq::<Seq<char>>::empty() =~= lines);
    } else {
        let before = (count - 1) as nat;
        let written = lines + block_lines(scope, before, state.depth() + 1);
        let more = statement_lines(scope[count - 1], state.depth() + 1);
        lemma_prints_block(scope, before, state, lines);
        lemma_replay_concat::<PrintAST>(
            block_nodes(scope, before),
            statement_nodes(scope[count - 1]),
            inside(state, owned, 0, lines),
        );
        lemma_one_further(state, owned, before, written, more);
        lemma_prints_statement(scope[count - 1], inside(state, owned, before, written));
        assert(written + more =~= lines + block_lines(scope, count, state.depth() + 1));
    }
}

/// The printer writes a function down.
pub proof fn lemma_prints_function(function: FunctionView, state: PrintASTView)
    requires
        awaits(state),
    ensures
        replay::<PrintAST>(function_nodes(function), state) == printed(
            state,
            function_lines(function, state.depth()),
        ),
{
    let depth = state.depth();
    let node = NodeView::Function(function);
    let declaration = NodeView::FunctionDeclaration(function.declaration);
    let own = node_lines(node, depth);
    let declared = node_lines(declaration, depth + 1);
    let body = scope_lines(function.body, depth + 1);
    lemma_replay_one::<PrintAST>(node, state);
    lemma_opened(state, node);
    lemma_replay_concat::<PrintAST>(seq![node], seq![declaration], state);
    lemma_one_further(state, 2, 0, own, declared);
    lemma_replay_one::<PrintAST>(declaration, inside(state, 2, 0, own));
    lemma_opened(inside(state, 2, 0, own), declaration);
    assert(seq![node] + seq![declaration] =~= seq![node, declaration]);
    lemma_replay_concat::<PrintAST>(seq![node, declaration], scope_nodes(function.body), state);
    lemma_one_further(state, 2, 1, own + declared, body);
    lemma_prints_scope(function.body, inside(state, 2, 1, own + declared));
    lemma_closed(state, 2, own + declared + body);
}

/// The printer writes functions down one after the other.
pub proof fn lemma_prints_functions(
    functions: Seq<FunctionView>,
    count: nat,
    state: PrintASTView,
    lines: Seq<Seq<char>>,
)
    requires
        count <= functions.len(),
    ensures
        replay::<PrintAST>(
            functions_nodes(functions, count),
            inside(state, functions.len(), 0, lines),
        ) == inside(
            state,
            functions.len(),
            count,
            lines + functions_lines(functions, count, state.depth() + 1),
        ),
    decreases count,
{
    let owned = functions.len();
    if count == 0 {
        assert(lines + Seq::<Seq<char>>::empty() =~= lines);
    } else {
        let before = (count - 1) as nat;
        let written = lines + functions_lines(functions, before, state.depth() + 1);
        let more = function_lines(functions[count - 1], state.depth() + 1);
        lemma_prints_functions(functions, before, state, lines);
        lemma_replay_concat::<PrintAST>(
            functions_nodes(functions, before),
            function_nodes(functions[count - 1]),
            inside(state, owned, 0, lines),
        );
        lemma_one_further(state, owned, before, written, more);
        lemma_prints_function(functions[count - 1], inside(state, owned, before, written));
        assert(written + more =~= lines + functions_lines(functions, count, state.depth() + 1));
    }
}

/// The printer writes a program down: taken through a program, a printer
/// that awaits a node has written the program's lines, each node four
/// columns further in than the node that owns it, and awaits what it awaited
/// before.
pub proof fn lemma_prints_program(program: Seq<FunctionView>, state: PrintASTView)
    requires
        awaits(state),
    ensures
        replay::<PrintAST>(program_nodes(program), state) == printed(
            state,
            program_lines(program, state.depth()),
        ),
{
    let node = NodeView::Program(program);
    let own = node_lines(node, state.depth());
    lemma_replay_one::<PrintAST>(node, state);
    lemma_opened(state, node);
    lemma_replay_concat::<PrintAST>(seq![node], functions_nodes(program, program.len()), state);
    lemma_prints_functions(program, program.len(), state, own);
    lemma_closed(
        state,
        program.len(),
        own + functions_lines(program, program.len(), state.depth() + 1),
    );
}

/// A fresh printer, taken through a program, holds the lines of the program
/// and nothing else, and no node is left open.
pub proof fn lemma_fresh_printer_prints_program(program: Seq<FunctionView>, call_depth: nat)
    ensures
        replay::<PrintAST>(
            program_nodes(program),
            PrintASTView { call_depth, pending: Seq::empty(), lines: Seq::empty() },
        ) == (PrintASTView {
            call_depth,
            pending: Seq::empty(),
            lines: program_lines(program, call_depth),
        }),
{
    let fresh = PrintASTView { call_depth, pending: Seq::empty(), lines: Seq::empty() };
    lemma_prints_program(program, fresh);
    assert(fresh.lines + program_lines(program, call_depth) =~= program_lines(
        program,
        call_depth,
    ));
}

} // verus!
