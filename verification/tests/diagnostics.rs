use pipa_playground::diag::{Diagnostic, Severity};
use pipa_playground::ir::gen_ir;
use pipa_playground::ir::instr::SemanticError;
use pipa_playground::syntax::ast;
use pipa_playground::syntax::token::{Span, TokenKind};
use pipa_playground::syntax::tree::{Expected, SyntaxError};
use pipa_playground::vm::semantics::RuntimeError;

fn text(sink: Vec<u8>) -> String {
    String::from_utf8(sink).unwrap()
}

#[test]
fn syntax_error_report_points_at_the_token() {
    let source = b"{{ @m \"a\" }}";
    let e = ast(source).unwrap_err();
    let mut sink = Vec::new();
    e.write_message(&mut sink, "index.pipa", source);
    assert_eq!(
        text(sink),
        "error: expected `|`, found `}}`\n --> index.pipa:1:11\n{{ @m \"a\" }}\n          ^^\n"
    );
}

#[test]
fn report_shows_the_offending_line_only() {
    let source = b"ab\n{{ ! }}\ncd";
    let e = ast(source).unwrap_err();
    let mut sink = b"> ".to_vec();
    e.write_message(&mut sink, "t", source);
    assert_eq!(
        text(sink),
        "> error: expected a statement, found an unknown character\n --> t:2:4\n{{ ! }}\n   ^\n"
    );
}

#[test]
fn report_at_the_end_of_the_source_has_one_caret() {
    let source = b"a\n{{ b";
    let e = ast(source).unwrap_err();
    let mut sink = Vec::new();
    e.write_message(&mut sink, "f", source);
    assert_eq!(
        text(sink),
        "error: expected `}}`, found the end of the template\n --> f:2:5\n{{ b\n    ^\n"
    );
}

#[test]
fn carets_stop_at_the_end_of_the_line() {
    let source = b"{{ \"ab\ncd";
    let e = ast(source).unwrap_err();
    let mut sink = Vec::new();
    e.write_message(&mut sink, "f", source);
    assert_eq!(
        text(sink),
        "error: expected a statement, found a string literal without its closing quote\n --> f:1:4\n{{ \"ab\n   ^^^\n"
    );
}

#[test]
fn duplicate_macro_report_shows_both_definitions() {
    let source = b"{{\n@m \"a\" | \"b\"\n@m \"c\" | \"d\"\n}}";
    let e = gen_ir(source, ast(source).unwrap()).unwrap_err();
    let mut sink = Vec::new();
    e.write_message(&mut sink, "f", source);
    assert_eq!(
        text(sink),
        "error: macro `m` is defined twice\n --> f:3:1\n@m \"c\" | \"d\"\n^^\nnote: first defined here\n --> f:2:1\n@m \"a\" | \"b\"\n^^\n"
    );
}

#[test]
fn unknown_macro_report() {
    let source = b"{{ L[:] | ?nope }}";
    let e = gen_ir(source, ast(source).unwrap()).unwrap_err();
    let mut sink = Vec::new();
    e.write_message(&mut sink, "f", source);
    assert_eq!(
        text(sink),
        "error: unknown macro `nope`\n --> f:1:11\n{{ L[:] | ?nope }}\n          ^^^^^\n"
    );
}

#[test]
fn malformed_interpolation_report() {
    let source = b"{{ \"ab$(\" }}";
    let e = gen_ir(source, ast(source).unwrap()).unwrap_err();
    let mut sink = Vec::new();
    e.write_message(&mut sink, "f", source);
    assert_eq!(
        text(sink),
        "error: malformed interpolation\n --> f:1:7\n{{ \"ab$(\" }}\n      ^^\n"
    );
}

#[test]
fn runtime_error_reports_have_no_excerpt() {
    let mut sink = Vec::new();
    RuntimeError::UndefinedVariable { name: b"x".to_vec() }.write_message(&mut sink, "f", b"{{ x }}");
    RuntimeError::UndefinedArray { name: b"L".to_vec() }.write_message(&mut sink, "g", b"");
    assert_eq!(
        text(sink),
        "error: undefined variable `x`\n --> f\nerror: undefined array `L`\n --> g\n"
    );
}

#[test]
fn every_expectation_and_kind_has_its_words() {
    let span = Span { start: 0, end: 1, line: 0, column: 0 };
    let cases = [
        (Expected::Template, TokenKind::HostText, "expected host text or `{{`, found host text"),
        (Expected::Statement, TokenKind::BlockOpen, "expected a statement, found `{{`"),
        (Expected::Operand, TokenKind::Identifier, "expected a string literal or a name, found a name"),
        (Expected::Pipe, TokenKind::StringLiteral, "expected `|`, found a string literal"),
        (Expected::Colon, TokenKind::MacroDef, "expected `:`, found a macro definition"),
        (Expected::RightBracket, TokenKind::MacroRef, "expected `]`, found a macro reference"),
        (Expected::MacroRef, TokenKind::Pipe, "expected a macro reference, found `|`"),
        (Expected::BlockClose, TokenKind::LeftBracket, "expected `}}`, found `[`"),
        (Expected::Statement, TokenKind::Colon, "expected a statement, found `:`"),
        (Expected::Statement, TokenKind::RightBracket, "expected a statement, found `]`"),
        (Expected::Statement, TokenKind::Comment, "expected a statement, found a comment"),
        (Expected::Statement, TokenKind::Newline, "expected a statement, found the end of the line"),
        (
            Expected::Separator,
            TokenKind::Unknown,
            "expected white space or the end of the line, found an unknown character",
        ),
        (
            Expected::Statement,
            TokenKind::UnterminatedString,
            "expected a statement, found a string literal without its closing quote",
        ),
        (Expected::BlockClose, TokenKind::EndOfInput, "expected `}}`, found the end of the template"),
        (Expected::Statement, TokenKind::BlockClose, "expected a statement, found `}}`"),
    ];
    for (expected, found, words) in cases {
        let mut sink = Vec::new();
        SyntaxError { span, expected, found }.write_message(&mut sink, "f", b"x");
        assert_eq!(text(sink), format!("error: {}\n --> f:1:1\nx\n^\n", words));
    }
}

#[test]
fn report_with_a_span_beyond_the_source_points_at_its_end() {
    let mut sink = Vec::new();
    let span = Span { start: 50, end: 60, line: 4, column: 2 };
    let d = Diagnostic { severity: Severity::Note, message: b"m".to_vec(), span: Some(span) };
    d.write(&mut sink, "f", b"ab\ncd");
    assert_eq!(text(sink), "note: m\n --> f:5:3\ncd\n  ^\n");
}

#[test]
fn errors_give_their_diagnostics() {
    let source = b"{{\n@m \"a\" | \"b\"\n@m \"c\" | \"d\"\n}}";
    let e = gen_ir(source, ast(source).unwrap()).unwrap_err();
    assert_eq!(
        e.diagnostic(),
        Diagnostic {
            severity: Severity::Error,
            message: b"macro `m` is defined twice".to_vec(),
            span: Some(Span { start: 16, end: 18, line: 2, column: 0 }),
        }
    );
    assert_eq!(
        e.note(),
        Some(Diagnostic {
            severity: Severity::Note,
            message: b"first defined here".to_vec(),
            span: Some(Span { start: 3, end: 5, line: 1, column: 0 }),
        })
    );
    let unknown = SemanticError::UnknownMacro { name: b"m".to_vec(), span: Span { start: 0, end: 1, line: 0, column: 0 } };
    assert_eq!(unknown.note(), None);
    let s = ast(b"{{ ! }}").unwrap_err();
    assert_eq!(s.diagnostic().message, b"expected a statement, found an unknown character");
    assert_eq!(s.diagnostic().span, Some(s.span));
    let r = RuntimeError::UndefinedArray { name: b"L".to_vec() };
    assert_eq!(
        r.diagnostic(),
        Diagnostic { severity: Severity::Error, message: b"undefined array `L`".to_vec(), span: None }
    );
}

#[test]
fn semantic_errors_compare_by_value() {
    let span = Span { start: 0, end: 1, line: 0, column: 0 };
    assert_ne!(
        SemanticError::UnknownMacro { name: b"a".to_vec(), span },
        SemanticError::UnknownMacro { name: b"b".to_vec(), span }
    );
}
