//! The parser: from tokens to a syntax tree, or to the first syntax error.

use vstd::prelude::*;
use crate::syntax::lexer::{lemma_lex_rising, lemma_lex_spans, lex, rising, tokenize};
use crate::syntax::token::{within, Span, Token, TokenKind};
use crate::syntax::tree::{Ast, Expected, Expr, Node, NodeView, Statement, SyntaxError, nodes_view};

verus! {

/// The span reported where the tokens run out.
pub open spec fn end_span(tokens: Seq<Token>) -> Span {
    if tokens.len() > 0 {
        tokens.last().span
    } else {
        Span { start: 0, end: 0, line: 0, column: 0 }
    }
}

/// The token at `i`; behind the last token, the end of input.
pub open spec fn peek(tokens: Seq<Token>, i: int) -> Token {
    if 0 <= i < tokens.len() {
        tokens[i]
    } else {
        Token { kind: TokenKind::EndOfInput, span: end_span(tokens) }
    }
}

/// The error for a token that cannot stand where `expected` was looked for.
pub open spec fn unexpected(token: Token, expected: Expected) -> SyntaxError {
    SyntaxError { span: token.span, expected, found: token.kind }
}

/// The operand at `i`: a string literal or a name.
pub open spec fn operand(tokens: Seq<Token>, i: int) -> Result<Expr, SyntaxError> {
    let t = peek(tokens, i);
    match t.kind {
        TokenKind::StringLiteral => Ok(Expr::StringLiteral { span: t.span }),
        TokenKind::Identifier => Ok(Expr::VarRef { span: t.span }),
        _ => Err(unexpected(t, Expected::Operand)),
    }
}

/// What follows the name of an array at `i`: `[:]`, alone or piped into a
/// macro reference.
pub open spec fn selection(tokens: Seq<Token>, i: int) -> Result<(Statement, int), SyntaxError> {
    let array = peek(tokens, i).span;
    if peek(tokens, i + 2).kind != TokenKind::Colon {
        Err(unexpected(peek(tokens, i + 2), Expected::Colon))
    } else if peek(tokens, i + 3).kind != TokenKind::RightBracket {
        Err(unexpected(peek(tokens, i + 3), Expected::RightBracket))
    } else if peek(tokens, i + 4).kind != TokenKind::Pipe {
        Ok((Statement::ArraySelect { array }, i + 4))
    } else if peek(tokens, i + 5).kind != TokenKind::MacroRef {
        Err(unexpected(peek(tokens, i + 5), Expected::MacroRef))
    } else {
        Ok((Statement::PipeChain { array, target: peek(tokens, i + 5).span }, i + 6))
    }
}

/// The macro definition whose sigil stands at `i`: two operands with `|`
/// between them.
pub open spec fn definition(tokens: Seq<Token>, i: int) -> Result<(Statement, int), SyntaxError> {
    match operand(tokens, i + 1) {
        Err(e) => Err(e),
        Ok(pattern) => if peek(tokens, i + 2).kind != TokenKind::Pipe {
            Err(unexpected(peek(tokens, i + 2), Expected::Pipe))
        } else {
            match operand(tokens, i + 3) {
                Err(e) => Err(e),
                Ok(body) => Ok(
                    (Statement::MacroDef { name: peek(tokens, i).span, pattern, body }, i + 4),
                ),
            }
        },
    }
}

/// The statement that starts at `i`, and the index behind it.
pub open spec fn statement(tokens: Seq<Token>, i: int) -> Result<(Statement, int), SyntaxError> {
    let t = peek(tokens, i);
    match t.kind {
        TokenKind::Comment => Ok((Statement::Comment { span: t.span }, i + 1)),
        TokenKind::StringLiteral => Ok(
            (Statement::Expression { expr: Expr::StringLiteral { span: t.span } }, i + 1),
        ),
        TokenKind::Identifier => if peek(tokens, i + 1).kind == TokenKind::LeftBracket {
            selection(tokens, i)
        } else {
            Ok((Statement::Expression { expr: Expr::VarRef { span: t.span } }, i + 1))
        },
        TokenKind::MacroDef => definition(tokens, i),
        TokenKind::EndOfInput => Err(unexpected(t, Expected::BlockClose)),
        _ => Err(unexpected(t, Expected::Statement)),
    }
}

/// Whether the token at `next` may follow a statement that ends just before
/// it: it ends the line or the block, or white space stands between the two.
pub open spec fn separated(tokens: Seq<Token>, next: int) -> bool {
    let t = peek(tokens, next);
    t.kind == TokenKind::Newline || t.kind == TokenKind::BlockClose || t.kind
        == TokenKind::EndOfInput || peek(tokens, next - 1).span.end < t.span.start
}

/// The statements of the block whose first token stands at `i`, and the index
/// behind its `}}`. Each statement ends at a line feed, at white space or at
/// the end of the block.
pub open spec fn block(tokens: Seq<Token>, i: int) -> Result<(Seq<Statement>, int), SyntaxError>
    decreases tokens.len() - i,
{
    let t = peek(tokens, i);
    if t.kind == TokenKind::Newline {
        block(tokens, i + 1)
    } else if t.kind == TokenKind::BlockClose {
        Ok((Seq::empty(), i + 1))
    } else {
        match statement(tokens, i) {
            Err(e) => Err(e),
            Ok((first, next)) => if !separated(tokens, next) {
                Err(unexpected(peek(tokens, next), Expected::Separator))
            } else {
                match block(tokens, next) {
                    Err(e) => Err(e),
                    Ok((rest, end)) => Ok((seq![first] + rest, end)),
                }
            },
        }
    }
}

/// A block that parses ends behind where it starts, and inside the tokens.
pub proof fn lemma_block_advances(tokens: Seq<Token>, i: int)
    requires
        0 <= i,
    ensures
        block(tokens, i) is Ok ==> i < block(tokens, i)->Ok_0.1 <= tokens.len(),
    decreases tokens.len() - i,
{
    let t = peek(tokens, i);
    if t.kind == TokenKind::Newline {
        lemma_block_advances(tokens, i + 1);
    } else if t.kind == TokenKind::BlockClose {
    } else {
        match statement(tokens, i) {
            Err(e) => {},
            Ok((first, next)) => {
                if separated(tokens, next) {
                    lemma_block_advances(tokens, next);
                }
            },
        }
    }
}

/// The nodes of a template from token `i` on.
pub open spec fn nodes(tokens: Seq<Token>, i: int) -> Result<Seq<NodeView>, SyntaxError>
    decreases tokens.len() - i,
{
    let t = peek(tokens, i);
    if i < 0 {
        Err(unexpected(t, Expected::Template))
    } else {
        match t.kind {
            TokenKind::EndOfInput => Ok(Seq::empty()),
            TokenKind::HostText => match nodes(tokens, i + 1) {
                Err(e) => Err(e),
                Ok(rest) => Ok(seq![NodeView::HostText { span: t.span }] + rest),
            },
            TokenKind::BlockOpen => match block(tokens, i + 1) {
                Err(e) => Err(e),
                Ok((statements, next)) => {
                    proof {
                        lemma_block_advances(tokens, i + 1);
                    }
                    match nodes(tokens, next) {
                        Err(e) => Err(e),
                        Ok(rest) => Ok(seq![NodeView::ScriptBlock { statements }] + rest),
                    }
                },
            },
            _ => Err(unexpected(t, Expected::Template)),
        }
    }
}

/// The syntax tree of a token sequence, or its first syntax error.
pub open spec fn parse_spec(tokens: Seq<Token>) -> Result<Seq<NodeView>, SyntaxError> {
    nodes(tokens, 0)
}

/// `r` with `prefix` before its statements.
pub open spec fn statements_after(
    prefix: Seq<Statement>,
    r: Result<(Seq<Statement>, int), SyntaxError>,
) -> Result<(Seq<Statement>, int), SyntaxError> {
    match r {
        Ok((rest, end)) => Ok((prefix + rest, end)),
        Err(e) => Err(e),
    }
}

/// `r` with `prefix` before its nodes.
pub open spec fn nodes_after(
    prefix: Seq<NodeView>,
    r: Result<Seq<NodeView>, SyntaxError>,
) -> Result<Seq<NodeView>, SyntaxError> {
    match r {
        Ok(rest) => Ok(prefix + rest),
        Err(e) => Err(e),
    }
}

/// The mathematical value of what `parse` returns.
pub open spec fn parsed_view(r: Result<Ast, SyntaxError>) -> Result<Seq<NodeView>, SyntaxError> {
    match r {
        Ok(tree) => Ok(tree@),
        Err(e) => Err(e),
    }
}

/// Whether the span of an expression is a range of a source of `n` bytes.
pub open spec fn expr_within(e: Expr, n: int) -> bool {
    match e {
        Expr::StringLiteral { span } => within(span, n),
        Expr::VarRef { span } => within(span, n),
    }
}

/// Whether the spans of a statement are ranges of a source of `n` bytes.
pub open spec fn statement_within(statement: Statement, n: int) -> bool {
    match statement {
        Statement::Comment { span } => within(span, n),
        Statement::Expression { expr } => expr_within(expr, n),
        Statement::MacroDef { name, pattern, body } => within(name, n) && expr_within(pattern, n)
            && expr_within(body, n),
        Statement::ArraySelect { array } => within(array, n),
        Statement::PipeChain { array, target } => within(array, n) && within(target, n),
    }
}

/// Whether the spans of a node are ranges of a source of `n` bytes.
pub open spec fn node_within(node: NodeView, n: int) -> bool {
    match node {
        NodeView::HostText { span } => within(span, n),
        NodeView::ScriptBlock { statements } => forall|j: int|
            0 <= j < statements.len() ==> statement_within(#[trigger] statements[j], n),
    }
}

/// Whether the spans of all tokens are ranges of a source of `n` bytes.
pub open spec fn tokens_within(tokens: Seq<Token>, n: int) -> bool {
    forall|k: int| 0 <= k < tokens.len() ==> within((#[trigger] tokens[k]).span, n)
}

/// What the parser makes of tokens that lie within a source lies within it:
/// the spans of a statement, or the span of the error.
pub proof fn lemma_statement_within(tokens: Seq<Token>, i: int, n: int)
    requires
        0 <= n,
        tokens_within(tokens, n),
    ensures
        match statement(tokens, i) {
            Ok((st, next)) => statement_within(st, n),
            Err(e) => within(e.span, n),
        },
{
    assert forall|k: int| within(#[trigger] peek(tokens, k).span, n) by {
        if 0 <= k < tokens.len() {
            assert(within(tokens[k].span, n));
        } else if tokens.len() > 0 {
            assert(within(tokens[tokens.len() - 1].span, n));
        }
    }
    assert(within(peek(tokens, i).span, n));
    assert(within(peek(tokens, i + 1).span, n));
    assert(within(peek(tokens, i + 2).span, n));
    assert(within(peek(tokens, i + 3).span, n));
    assert(within(peek(tokens, i + 4).span, n));
    assert(within(peek(tokens, i + 5).span, n));
}

/// The statements of a block of tokens that lie within a source lie within
/// it, and so does the error of a block that does not parse.
pub proof fn lemma_block_within(tokens: Seq<Token>, i: int, n: int)
    requires
        0 <= n,
        tokens_within(tokens, n),
    ensures
        match block(tokens, i) {
            Ok((statements, next)) => forall|j: int|
                0 <= j < statements.len() ==> statement_within(#[trigger] statements[j], n),
            Err(e) => within(e.span, n),
        },
    decreases tokens.len() - i,
{
    let t = peek(tokens, i);
    if t.kind == TokenKind::Newline {
        lemma_block_within(tokens, i + 1, n);
    } else if t.kind == TokenKind::BlockClose {
    } else {
        lemma_statement_within(tokens, i, n);
        match statement(tokens, i) {
            Err(e) => {},
            Ok((first, next)) => {
                lemma_block_within(tokens, next, n);
                assert(within(peek(tokens, next).span, n)) by {
                    if 0 <= next < tokens.len() {
                        assert(within(tokens[next].span, n));
                    } else if tokens.len() > 0 {
                        assert(within(tokens[tokens.len() - 1].span, n));
                    }
                }
                match block(tokens, next) {
                    Err(e) => {},
                    Ok((rest, end)) => {
                        let all = seq![first] + rest;
                        assert forall|j: int| 0 <= j < all.len() implies statement_within(
                            #[trigger] all[j],
                            n,
                        ) by {
                            if j > 0 {
                                assert(all[j] == rest[j - 1]);
                            }
                        }
                    },
                }
            },
        }
    }
}

/// The nodes of tokens that lie within a source lie within it, and so does
/// the error of tokens that do not parse.
pub proof fn lemma_nodes_within(tokens: Seq<Token>, i: int, n: int)
    requires
        0 <= n,
        tokens_within(tokens, n),
    ensures
        match nodes(tokens, i) {
            Ok(tree) => forall|j: int| 0 <= j < tree.len() ==> node_within(#[trigger] tree[j], n),
            Err(e) => within(e.span, n),
        },
    decreases tokens.len() - i,
{
    let t = peek(tokens, i);
    assert(within(t.span, n)) by {
        if 0 <= i < tokens.len() {
            assert(within(tokens[i].span, n));
        } else if tokens.len() > 0 {
            assert(within(tokens[tokens.len() - 1].span, n));
        }
    }
    if i < 0 {
    } else {
        match t.kind {
            TokenKind::EndOfInput => {},
            TokenKind::HostText => {
                lemma_nodes_within(tokens, i + 1, n);
                match nodes(tokens, i + 1) {
                    Err(e) => {},
                    Ok(rest) => {
                        let all = seq![NodeView::HostText { span: t.span }] + rest;
                        assert forall|j: int| 0 <= j < all.len() implies node_within(
                            #[trigger] all[j],
                            n,
                        ) by {
                            if j > 0 {
                                assert(all[j] == rest[j - 1]);
                            }
                        }
                    },
                }
            },
            TokenKind::BlockOpen => {
                lemma_block_within(tokens, i + 1, n);
                match block(tokens, i + 1) {
                    Err(e) => {},
                    Ok((statements, next)) => {
                        lemma_block_advances(tokens, i + 1);
                        lemma_nodes_within(tokens, next, n);
                        match nodes(tokens, next) {
                            Err(e) => {},
                            Ok(rest) => {
                                let all = seq![NodeView::ScriptBlock { statements }] + rest;
                                assert forall|j: int| 0 <= j < all.len() implies node_within(
                                    #[trigger] all[j],
                                    n,
                                ) by {
                                    if j > 0 {
                                        assert(all[j] == rest[j - 1]);
                                    }
                                }
                            },
                        }
                    },
                }
            },
            _ => {},
        }
    }
}

/// Every span of the tree of a template is a range of the template, and so
/// is the span of its syntax error.
pub proof fn lemma_ast_within(s: Seq<u8>)
    requires
        s.len() <= usize::MAX,
    ensures
        match parse_spec(lex(s)) {
            Ok(tree) => forall|j: int|
                0 <= j < tree.len() ==> node_within(#[trigger] tree[j], s.len() as int),
            Err(e) => within(e.span, s.len() as int),
        },
{
    lemma_lex_spans(s, 0, false);
    assert(tokens_within(lex(s), s.len() as int));
    lemma_nodes_within(lex(s), 0, s.len() as int);
}

/// The span with which a statement starts.
pub open spec fn lead(statement: Statement) -> Span {
    match statement {
        Statement::Comment { span } => span,
        Statement::Expression { expr } => match expr {
            Expr::StringLiteral { span } => span,
            Expr::VarRef { span } => span,
        },
        Statement::MacroDef { name, pattern, body } => name,
        Statement::ArraySelect { array } => array,
        Statement::PipeChain { array, target } => array,
    }
}

/// Whether each statement starts behind where the one before it starts.
pub open spec fn leads_rising(statements: Seq<Statement>) -> bool {
    forall|a: int, b: int|
        0 <= a < b < statements.len() ==> lead(#[trigger] statements[a]).start < lead(
            #[trigger] statements[b],
        ).start
}

/// Whether the statements of every block start one behind the other.
pub open spec fn tree_rising(tree: Seq<NodeView>) -> bool {
    forall|j: int|
        0 <= j < tree.len() && (#[trigger] tree[j]) is ScriptBlock ==> leads_rising(
            tree[j]->ScriptBlock_statements,
        )
}

/// The statements of a block of rising tokens start one behind the other,
/// none before the first token of the block.
pub proof fn lemma_block_rising(tokens: Seq<Token>, i: int)
    requires
        rising(tokens),
    ensures
        match block(tokens, i) {
            Ok((statements, next)) => leads_rising(statements) && (statements.len() > 0 ==> 0 <= i
                < tokens.len() && forall|j: int|
                0 <= j < statements.len() ==> lead(#[trigger] statements[j]).start
                    >= tokens[i].span.start),
            Err(e) => true,
        },
    decreases tokens.len() - i,
{
    let t = peek(tokens, i);
    if t.kind == TokenKind::Newline {
        lemma_block_rising(tokens, i + 1);
        match block(tokens, i + 1) {
            Ok((statements, next)) => {
                if statements.len() > 0 {
                    assert(tokens[i].span.start < tokens[i + 1].span.start);
                }
            },
            Err(e) => {},
        }
    } else if t.kind == TokenKind::BlockClose {
    } else {
        match statement(tokens, i) {
            Err(e) => {},
            Ok((first, next)) => {
                assert(lead(first) == tokens[i].span);
                if separated(tokens, next) {
                    lemma_block_rising(tokens, next);
                    match block(tokens, next) {
                        Err(e) => {},
                        Ok((rest, end)) => {
                            let all = seq![first] + rest;
                            if rest.len() > 0 {
                                assert(tokens[i].span.start < tokens[next].span.start);
                            }
                            assert forall|j: int| 0 <= j < all.len() implies lead(
                                #[trigger] all[j],
                            ).start >= tokens[i].span.start by {
                                if j > 0 {
                                    assert(all[j] == rest[j - 1]);
                                }
                            }
                            assert forall|a: int, b: int| 0 <= a < b < all.len() implies lead(
                                #[trigger] all[a],
                            ).start < lead(#[trigger] all[b]).start by {
                                assert(all[b] == rest[b - 1]);
                                if a > 0 {
                                    assert(all[a] == rest[a - 1]);
                                }
                            }
                        },
                    }
                }
            },
        }
    }
}

/// In the tree of rising tokens the statements of every block start one
/// behind the other.
pub proof fn lemma_nodes_rising(tokens: Seq<Token>, i: int)
    requires
        rising(tokens),
    ensures
        nodes(tokens, i) is Ok ==> tree_rising(nodes(tokens, i)->Ok_0),
    decreases tokens.len() - i,
{
    let t = peek(tokens, i);
    if i >= 0 {
        match t.kind {
            TokenKind::HostText => {
                lemma_nodes_rising(tokens, i + 1);
                match nodes(tokens, i + 1) {
                    Err(e) => {},
                    Ok(rest) => {
                        let all = seq![NodeView::HostText { span: t.span }] + rest;
                        assert forall|j: int| 0 <= j < all.len() && (#[trigger] all[j])
                            is ScriptBlock implies leads_rising(all[j]->ScriptBlock_statements) by {
                            if j > 0 {
                                assert(all[j] == rest[j - 1]);
                            }
                        }
                    },
                }
            },
            TokenKind::BlockOpen => {
                lemma_block_rising(tokens, i + 1);
                match block(tokens, i + 1) {
                    Err(e) => {},
                    Ok((statements, next)) => {
                        lemma_block_advances(tokens, i + 1);
                        lemma_nodes_rising(tokens, next);
                        match nodes(tokens, next) {
                            Err(e) => {},
                            Ok(rest) => {
                                let all = seq![NodeView::ScriptBlock { statements }] + rest;
                                assert forall|j: int| 0 <= j < all.len() && (#[trigger] all[j])
                                    is ScriptBlock implies leads_rising(
                                    all[j]->ScriptBlock_statements,
                                ) by {
                                    if j > 0 {
                                        assert(all[j] == rest[j - 1]);
                                    }
                                }
                            },
                        }
                    },
                }
            },
            _ => {},
        }
    }
}

/// In the tree of a template the statements of every block start one behind
/// the other, so no two of them have the same span.
pub proof fn lemma_ast_rising(s: Seq<u8>)
    requires
        s.len() <= usize::MAX,
    ensures
        parse_spec(lex(s)) is Ok ==> tree_rising(parse_spec(lex(s))->Ok_0),
{
    lemma_lex_rising(s, 0, false);
    lemma_nodes_rising(lex(s), 0);
}

fn peek_at(tokens: &[Token], i: usize) -> (t: Token)
    ensures
        t == peek(tokens@, i as int),
        tokens@.len() <= usize::MAX,
{
    if i < tokens.len() {
        tokens[i]
    } else if tokens.len() > 0 {
        Token { kind: TokenKind::EndOfInput, span: tokens[tokens.len() - 1].span }
    } else {
        Token { kind: TokenKind::EndOfInput, span: Span { start: 0, end: 0, line: 0, column: 0 } }
    }
}

fn fail(token: Token, expected: Expected) -> (e: SyntaxError)
    ensures
        e == unexpected(token, expected),
{
    SyntaxError { span: token.span, expected, found: token.kind }
}

fn parse_operand(tokens: &[Token], i: usize) -> (r: Result<Expr, SyntaxError>)
    ensures
        r == operand(tokens@, i as int),
        r is Ok ==> i < tokens@.len(),
{
    let t = peek_at(tokens, i);
    match t.kind {
        TokenKind::StringLiteral => Ok(Expr::StringLiteral { span: t.span }),
        TokenKind::Identifier => Ok(Expr::VarRef { span: t.span }),
        _ => Err(fail(t, Expected::Operand)),
    }
}

fn parse_selection(tokens: &[Token], i: usize) -> (r: Result<(Statement, usize), SyntaxError>)
    requires
        i + 1 < tokens@.len(),
    ensures
        match r {
            Ok((st, next)) => selection(tokens@, i as int) == Ok::<_, SyntaxError>((st, next as int))
                && i < next <= tokens@.len(),
            Err(e) => selection(tokens@, i as int) == Err::<(Statement, int), _>(e),
        },
{
    let array = peek_at(tokens, i).span;
    let colon = peek_at(tokens, i + 2);
    if colon.kind != TokenKind::Colon {
        return Err(fail(colon, Expected::Colon));
    }
    let bracket = peek_at(tokens, i + 3);
    if bracket.kind != TokenKind::RightBracket {
        return Err(fail(bracket, Expected::RightBracket));
    }
    let pipe = peek_at(tokens, i + 4);
    if pipe.kind != TokenKind::Pipe {
        return Ok((Statement::ArraySelect { array }, i + 4));
    }
    let target = peek_at(tokens, i + 5);
    if target.kind != TokenKind::MacroRef {
        return Err(fail(target, Expected::MacroRef));
    }
    Ok((Statement::PipeChain { array, target: target.span }, i + 6))
}

fn parse_definition(tokens: &[Token], i: usize) -> (r: Result<(Statement, usize), SyntaxError>)
    requires
        i < tokens@.len(),
    ensures
        match r {
            Ok((st, next)) => definition(tokens@, i as int) == Ok::<_, SyntaxError>((st, next as int))
                && i < next <= tokens@.len(),
            Err(e) => definition(tokens@, i as int) == Err::<(Statement, int), _>(e),
        },
{
    let name = peek_at(tokens, i).span;
    let pattern = match parse_operand(tokens, i + 1) {
        Ok(expr) => expr,
        Err(e) => {
            return Err(e);
        },
    };
    let pipe = peek_at(tokens, i + 2);
    if pipe.kind != TokenKind::Pipe {
        return Err(fail(pipe, Expected::Pipe));
    }
    let body = match parse_operand(tokens, i + 3) {
        Ok(expr) => expr,
        Err(e) => {
            return Err(e);
        },
    };
    Ok((Statement::MacroDef { name, pattern, body }, i + 4))
}

fn parse_statement(tokens: &[Token], i: usize) -> (r: Result<(Statement, usize), SyntaxError>)
    ensures
        match r {
            Ok((st, next)) => statement(tokens@, i as int) == Ok::<_, SyntaxError>((st, next as int))
                && i < next <= tokens@.len(),
            Err(e) => statement(tokens@, i as int) == Err::<(Statement, int), _>(e),
        },
{
    let t = peek_at(tokens, i);
    match t.kind {
        TokenKind::Comment => Ok((Statement::Comment { span: t.span }, i + 1)),
        TokenKind::StringLiteral => Ok(
            (Statement::Expression { expr: Expr::StringLiteral { span: t.span } }, i + 1),
        ),
        TokenKind::Identifier => {
            if peek_at(tokens, i + 1).kind == TokenKind::LeftBracket {
                parse_selection(tokens, i)
            } else {
                Ok((Statement::Expression { expr: Expr::VarRef { span: t.span } }, i + 1))
            }
        },
        TokenKind::MacroDef => parse_definition(tokens, i),
        TokenKind::EndOfInput => Err(fail(t, Expected::BlockClose)),
        _ => Err(fail(t, Expected::Statement)),
    }
}

fn parse_block(tokens: &[Token], start: usize) -> (r: Result<(Vec<Statement>, usize), SyntaxError>)
    ensures
        match r {
            Ok((statements, next)) => block(tokens@, start as int) == Ok::<_, SyntaxError>(
                (statements@, next as int),
            ) && start < next <= tokens@.len(),
            Err(e) => block(tokens@, start as int) == Err::<(Seq<Statement>, int), _>(e),
        },
{
    let mut statements: Vec<Statement> = Vec::new();
    let mut i: usize = start;
    loop
        invariant
            start <= i,
            block(tokens@, start as int) == statements_after(statements@, block(tokens@, i as int)),
        decreases tokens@.len() - i,
    {
        let t = peek_at(tokens, i);
        if t.kind == TokenKind::Newline {
            i += 1;
        } else if t.kind == TokenKind::BlockClose {
            assert(statements@ + Seq::<Statement>::empty() =~= statements@);
            return Ok((statements, i + 1));
        } else {
            match parse_statement(tokens, i) {
                Err(e) => {
                    return Err(e);
                },
                Ok((st, next)) => {
                    let follower = peek_at(tokens, next);
                    let apart = match follower.kind {
                        TokenKind::Newline => true,
                        TokenKind::BlockClose => true,
                        TokenKind::EndOfInput => true,
                        _ => peek_at(tokens, next - 1).span.end < follower.span.start,
                    };
                    if !apart {
                        return Err(fail(follower, Expected::Separator));
                    }
                    proof {
                        let before = statements@;
                        match block(tokens@, next as int) {
                            Ok((rest, end)) => {
                                assert(before + (seq![st] + rest) =~= before.push(st) + rest);
                            },
                            Err(e) => {},
                        }
                    }
                    statements.push(st);
                    i = next;
                },
            }
        }
    }
}

/// Builds the syntax tree of a token sequence. The first token that cannot
/// stand where it does ends parsing with a `SyntaxError`; nothing is skipped
/// to look for further errors.
pub fn parse(tokens: &[Token]) -> (r: Result<Ast, SyntaxError>)
    ensures
        parsed_view(r) == parse_spec(tokens@),
{
    let mut nodes: Vec<Node> = Vec::new();
    let mut i: usize = 0;
    loop
        invariant
            parse_spec(tokens@) == nodes_after(nodes_view(nodes@), self::nodes(tokens@, i as int)),
        decreases tokens@.len() - i,
    {
        let t = peek_at(tokens, i);
        let ghost before = nodes@;
        match t.kind {
            TokenKind::EndOfInput => {
                assert(nodes_view(before) + Seq::<NodeView>::empty() =~= nodes_view(before));
                return Ok(Ast { nodes });
            },
            TokenKind::HostText => {
                let node = Node::HostText { span: t.span };
                nodes.push(node);
                proof {
                    assert(nodes_view(nodes@) =~= nodes_view(before).push(node@));
                    match self::nodes(tokens@, i + 1) {
                        Ok(rest) => {
                            assert(nodes_view(before) + (seq![node@] + rest) =~= nodes_view(
                                before,
                            ).push(node@) + rest);
                        },
                        Err(e) => {},
                    }
                }
                i += 1;
            },
            TokenKind::BlockOpen => {
                match parse_block(tokens, i + 1) {
                    Err(e) => {
                        return Err(e);
                    },
                    Ok((statements, next)) => {
                        let node = Node::ScriptBlock { statements };
                        nodes.push(node);
                        proof {
                            assert(nodes_view(nodes@) =~= nodes_view(before).push(node@));
                            match self::nodes(tokens@, next as int) {
                                Ok(rest) => {
                                    assert(nodes_view(before) + (seq![node@] + rest) =~= nodes_view(
                                        before,
                                    ).push(node@) + rest);
                                },
                                Err(e) => {},
                            }
                        }
                        i = next;
                    },
                }
            },
            _ => {
                return Err(fail(t, Expected::Template));
            },
        }
    }
}

/// Tokenizes and parses a template.
pub fn ast(source: &[u8]) -> (r: Result<Ast, SyntaxError>)
    ensures
        parsed_view(r) == parse_spec(lex(source@)),
{
    let tokens = tokenize(source);
    parse(tokens.as_slice())
}

} // verus!
