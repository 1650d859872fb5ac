use pipa_playground::syntax::ast;
use pipa_playground::syntax::lexer::tokenize;
use pipa_playground::syntax::parser::parse;
use pipa_playground::syntax::token::{Span, Token, TokenKind};
use pipa_playground::syntax::tree::{Ast, Expected, Expr, Node, Statement, SyntaxError};

fn sp(start: usize, end: usize, line: usize, column: usize) -> Span {
    Span { start, end, line, column }
}

#[test]
fn host_text_and_blocks_alternate() {
    let tree = ast(b"a{{ x }}b").unwrap();
    assert_eq!(
        tree,
        Ast {
            nodes: vec![
                Node::HostText { span: sp(0, 1, 0, 0) },
                Node::ScriptBlock {
                    statements: vec![Statement::Expression {
                        expr: Expr::VarRef { span: sp(4, 5, 0, 4) }
                    }]
                },
                Node::HostText { span: sp(8, 9, 0, 8) },
            ]
        }
    );
}

#[test]
fn empty_template_has_no_nodes() {
    assert_eq!(ast(b"").unwrap(), Ast { nodes: vec![] });
}

#[test]
fn empty_block_has_no_statements() {
    assert_eq!(ast(b"{{}}").unwrap(), Ast { nodes: vec![Node::ScriptBlock { statements: vec![] }] });
    assert_eq!(
        ast(b"{{\n\n}}").unwrap(),
        Ast { nodes: vec![Node::ScriptBlock { statements: vec![] }] }
    );
}

#[test]
fn comments_are_kept_in_the_tree() {
    let tree = ast(b"{{ # hi\n}}").unwrap();
    assert_eq!(
        tree.nodes,
        vec![Node::ScriptBlock { statements: vec![Statement::Comment { span: sp(3, 7, 0, 3) }] }]
    );
}

#[test]
fn macro_definition_takes_two_operands() {
    let tree = ast(b"{{ @m \"a\" | b }}").unwrap();
    assert_eq!(
        tree.nodes,
        vec![Node::ScriptBlock {
            statements: vec![Statement::MacroDef {
                name: sp(3, 5, 0, 3),
                pattern: Expr::StringLiteral { span: sp(6, 9, 0, 6) },
                body: Expr::VarRef { span: sp(12, 13, 0, 12) },
            }]
        }]
    );
}

#[test]
fn array_selection_alone_and_piped() {
    let tree = ast(b"{{ L[:]\nL[:] | ?m }}").unwrap();
    assert_eq!(
        tree.nodes,
        vec![Node::ScriptBlock {
            statements: vec![
                Statement::ArraySelect { array: sp(3, 4, 0, 3) },
                Statement::PipeChain { array: sp(8, 9, 1, 0), target: sp(15, 17, 1, 7) },
            ]
        }]
    );
}

#[test]
fn pipe_must_stand_on_the_line_of_its_selection() {
    let e = ast(b"{{ L[:]\n| ?m }}").unwrap_err();
    assert_eq!(
        e,
        SyntaxError { span: sp(8, 9, 1, 0), expected: Expected::Statement, found: TokenKind::Pipe }
    );
}

#[test]
fn statements_on_one_line_are_split_at_white_space() {
    let tree = ast(b"{{ a \"b\" c }}").unwrap();
    match &tree.nodes[0] {
        Node::ScriptBlock { statements } => assert_eq!(statements.len(), 3),
        _ => panic!("expected a block"),
    }
}

#[test]
fn statements_need_something_between_them() {
    let e = ast(b"{{ \"a\"\"b\" }}").unwrap_err();
    assert_eq!(
        e,
        SyntaxError {
            span: sp(6, 9, 0, 6),
            expected: Expected::Separator,
            found: TokenKind::StringLiteral
        }
    );
    let e = ast(b"{{ a\"b\" }}").unwrap_err();
    assert_eq!(e.expected, Expected::Separator);
    assert_eq!(e.span, sp(4, 7, 0, 4));
    let e = ast(b"{{ L[:]x }}").unwrap_err();
    assert_eq!(e.expected, Expected::Separator);
    assert_eq!(e.found, TokenKind::Identifier);
    let e = ast(b"{{ \"a\"@m b | c }}").unwrap_err();
    assert_eq!(e.expected, Expected::Separator);
    assert_eq!(e.found, TokenKind::MacroDef);
    let e = ast(b"{{ x#c\n}}").unwrap_err();
    assert_eq!(e.expected, Expected::Separator);
    assert_eq!(e.found, TokenKind::Comment);
    assert!(ast(b"{{\"a\"}}").is_ok());
    assert!(ast(b"{{\"a\"\n\"b\"}}").is_ok());
    assert!(ast(b"{{ \"a\"\t\"b\" }}").is_ok());
    assert!(ast(b"{{ #c\nx }}").is_ok());
}

#[test]
fn unterminated_block_is_a_syntax_error() {
    let e = ast(b"a {{ b").unwrap_err();
    assert_eq!(
        e,
        SyntaxError {
            span: sp(6, 6, 0, 6),
            expected: Expected::BlockClose,
            found: TokenKind::EndOfInput
        }
    );
}

#[test]
fn unterminated_string_is_a_syntax_error() {
    let e = ast(b"{{ \"abc }}").unwrap_err();
    assert_eq!(
        e,
        SyntaxError {
            span: sp(3, 10, 0, 3),
            expected: Expected::Statement,
            found: TokenKind::UnterminatedString
        }
    );
}

#[test]
fn unknown_character_is_reported_by_the_parser() {
    let e = ast(b"ab\n{{ ! }}").unwrap_err();
    assert_eq!(
        e,
        SyntaxError { span: sp(6, 7, 1, 3), expected: Expected::Statement, found: TokenKind::Unknown }
    );
}

#[test]
fn definition_without_pipe_is_a_syntax_error() {
    let e = ast(b"{{ @m \"a\" }}").unwrap_err();
    assert_eq!(
        e,
        SyntaxError { span: sp(10, 12, 0, 10), expected: Expected::Pipe, found: TokenKind::BlockClose }
    );
}

#[test]
fn definition_without_operand_is_a_syntax_error() {
    let e = ast(b"{{ @m | \"a\" }}").unwrap_err();
    assert_eq!(
        e,
        SyntaxError { span: sp(6, 7, 0, 6), expected: Expected::Operand, found: TokenKind::Pipe }
    );
    let e = ast(b"{{ @m a |\n b }}").unwrap_err();
    assert_eq!(e.expected, Expected::Operand);
    assert_eq!(e.found, TokenKind::Newline);
}

#[test]
fn slice_must_be_the_whole_array() {
    let e = ast(b"{{ L[1] }}").unwrap_err();
    assert_eq!(e.expected, Expected::Colon);
    assert_eq!(e.found, TokenKind::Unknown);
    let e = ast(b"{{ L[: }}").unwrap_err();
    assert_eq!(e.expected, Expected::RightBracket);
    assert_eq!(e.found, TokenKind::BlockClose);
}

#[test]
fn pipe_needs_a_macro_reference() {
    let e = ast(b"{{ L[:] | m }}").unwrap_err();
    assert_eq!(
        e,
        SyntaxError {
            span: sp(10, 11, 0, 10),
            expected: Expected::MacroRef,
            found: TokenKind::Identifier
        }
    );
}

#[test]
fn only_the_first_error_is_reported() {
    let e = ast(b"{{ ! }} {{ @m }}").unwrap_err();
    assert_eq!(e.span.start, 3);
}

#[test]
fn parse_takes_tokens_from_anywhere() {
    let tokens = tokenize(b"x{{ y }}");
    assert_eq!(parse(&tokens), ast(b"x{{ y }}"));
    assert_eq!(parse(&[]), Ok(Ast { nodes: vec![] }));
    let stray = [Token { kind: TokenKind::Pipe, span: sp(0, 1, 0, 0) }];
    assert_eq!(
        parse(&stray),
        Err(SyntaxError { span: sp(0, 1, 0, 0), expected: Expected::Template, found: TokenKind::Pipe })
    );
    let open = [Token { kind: TokenKind::BlockOpen, span: sp(0, 2, 0, 0) }];
    assert_eq!(
        parse(&open),
        Err(SyntaxError {
            span: sp(0, 2, 0, 0),
            expected: Expected::BlockClose,
            found: TokenKind::EndOfInput
        })
    );
}
