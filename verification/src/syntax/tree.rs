//! The syntax tree of a template, and the error that parsing can end in.

use vstd::prelude::*;
use crate::syntax::token::{Span, TokenKind};

verus! {

/// An expression. It refers to its text by the span of its token.
#[derive(Clone, Copy, Debug, PartialEq, Eq, Structural)]
pub enum Expr {
    /// A string literal; the span includes both quotes.
    StringLiteral { span: Span },
    /// A bare name, which stands for the value of that variable.
    VarRef { span: Span },
}

/// One statement of a script block.
#[derive(Clone, Copy, Debug, PartialEq, Eq, Structural)]
pub enum Statement {
    /// A comment, kept so that the tree mirrors the source.
    Comment { span: Span },
    /// An expression whose value is written to the output.
    Expression { expr: Expr },
    /// `@name pattern | body`; `name` is the span of the sigil and the name.
    MacroDef { name: Span, pattern: Expr, body: Expr },
    /// `name[:]`, the selection of a whole array; `array` is the span of the name.
    ArraySelect { array: Span },
    /// `name[:] | ?target`, an array selection piped into a macro reference;
    /// `target` is the span of the sigil and the name.
    PipeChain { array: Span, target: Span },
}

/// A top-level part of a template.
#[derive(Clone, Debug, PartialEq, Eq)]
pub enum Node {
    /// Text outside any script block.
    HostText { span: Span },
    /// A script block with its statements in source order.
    ScriptBlock { statements: Vec<Statement> },
}

/// The mathematical value of a `Node`.
pub enum NodeView {
    HostText { span: Span },
    ScriptBlock { statements: Seq<Statement> },
}

impl View for Node {
    type V = NodeView;

    open spec fn view(&self) -> NodeView {
        match self {
            Node::HostText { span } => NodeView::HostText { span: *span },
            Node::ScriptBlock { statements } => NodeView::ScriptBlock { statements: statements@ },
        }
    }
}

/// The values of a sequence of nodes.
pub open spec fn nodes_view(nodes: Seq<Node>) -> Seq<NodeView> {
    Seq::new(nodes.len(), |i: int| nodes[i]@)
}

/// A parsed template: its nodes in source order.
#[derive(Clone, Debug, PartialEq, Eq)]
pub struct Ast {
    pub nodes: Vec<Node>,
}

impl View for Ast {
    type V = Seq<NodeView>;

    open spec fn view(&self) -> Seq<NodeView> {
        nodes_view(self.nodes@)
    }
}

/// What the parser was looking for when it met a token it could not use.
#[derive(Clone, Copy, Debug, PartialEq, Eq, Structural)]
pub enum Expected {
    /// Host text, `{{` or the end of the template.
    Template,
    /// The start of a statement.
    Statement,
    /// A string literal or a name.
    Operand,
    /// `|`
    Pipe,
    /// `:`
    Colon,
    /// `]`
    RightBracket,
    /// A macro reference, `?name`.
    MacroRef,
    /// `}}`
    BlockClose,
    /// White space or a line feed between two statements.
    Separator,
}

/// The first structural violation in a template.
#[derive(Clone, Copy, Debug, PartialEq, Eq, Structural)]
pub struct SyntaxError {
    /// Where the offending token stands.
    pub span: Span,
    /// What would have been accepted there.
    pub expected: Expected,
    /// What was found instead.
    pub found: TokenKind,
}

} // verus!
