use pipa_playground::syntax::lexer::tokenize;
use pipa_playground::syntax::token::{locate, text_of, Span, Token, TokenKind};

fn kinds(source: &[u8]) -> Vec<TokenKind> {
    tokenize(source).iter().map(|t| t.kind).collect()
}

fn span(start: usize, end: usize, line: usize, column: usize) -> Span {
    Span { start, end, line, column }
}

#[test]
fn empty_source_is_end_of_input_only() {
    assert_eq!(tokenize(b""), vec![Token { kind: TokenKind::EndOfInput, span: span(0, 0, 0, 0) }]);
}

#[test]
fn host_text_is_one_token() {
    let tokens = tokenize(b"<p>hi</p>\n");
    assert_eq!(
        tokens,
        vec![
            Token { kind: TokenKind::HostText, span: span(0, 10, 0, 0) },
            Token { kind: TokenKind::EndOfInput, span: span(10, 10, 1, 0) },
        ]
    );
}

#[test]
fn single_braces_stay_host_text() {
    assert_eq!(kinds(b"a { b } c }} d"), vec![TokenKind::HostText, TokenKind::EndOfInput]);
}

#[test]
fn block_tokens_with_spans() {
    let tokens = tokenize(b"{{ name }}");
    assert_eq!(
        tokens,
        vec![
            Token { kind: TokenKind::BlockOpen, span: span(0, 2, 0, 0) },
            Token { kind: TokenKind::Identifier, span: span(3, 7, 0, 3) },
            Token { kind: TokenKind::BlockClose, span: span(8, 10, 0, 8) },
            Token { kind: TokenKind::EndOfInput, span: span(10, 10, 0, 10) },
        ]
    );
}

#[test]
fn every_script_token_kind() {
    let source = b"{{ @m \"a\" | ?m L[:] # note\n}}";
    assert_eq!(
        kinds(source),
        vec![
            TokenKind::BlockOpen,
            TokenKind::MacroDef,
            TokenKind::StringLiteral,
            TokenKind::Pipe,
            TokenKind::MacroRef,
            TokenKind::Identifier,
            TokenKind::LeftBracket,
            TokenKind::Colon,
            TokenKind::RightBracket,
            TokenKind::Comment,
            TokenKind::Newline,
            TokenKind::BlockClose,
            TokenKind::EndOfInput,
        ]
    );
}

#[test]
fn lines_and_columns_count_from_zero() {
    let tokens = tokenize(b"ab\ncd{{\n  x\n}}");
    assert_eq!(tokens[0], Token { kind: TokenKind::HostText, span: span(0, 5, 0, 0) });
    assert_eq!(tokens[1], Token { kind: TokenKind::BlockOpen, span: span(5, 7, 1, 2) });
    assert_eq!(tokens[2], Token { kind: TokenKind::Newline, span: span(7, 8, 1, 4) });
    assert_eq!(tokens[3], Token { kind: TokenKind::Identifier, span: span(10, 11, 2, 2) });
    assert_eq!(tokens[4], Token { kind: TokenKind::Newline, span: span(11, 12, 2, 3) });
    assert_eq!(tokens[5], Token { kind: TokenKind::BlockClose, span: span(12, 14, 3, 0) });
    assert_eq!(tokens[6], Token { kind: TokenKind::EndOfInput, span: span(14, 14, 3, 2) });
}

#[test]
fn escaped_quote_does_not_end_a_string() {
    let source = b"{{ \"a\\\"b\" }}";
    let tokens = tokenize(source);
    assert_eq!(tokens[1], Token { kind: TokenKind::StringLiteral, span: span(3, 9, 0, 3) });
    assert_eq!(text_of(source, tokens[1].span), b"\"a\\\"b\"");
    assert_eq!(tokens[2].kind, TokenKind::BlockClose);
}

#[test]
fn string_may_hold_block_delimiters_and_newlines() {
    let source = b"{{ \"}}\n{{\" }}";
    assert_eq!(
        kinds(source),
        vec![
            TokenKind::BlockOpen,
            TokenKind::StringLiteral,
            TokenKind::BlockClose,
            TokenKind::EndOfInput,
        ]
    );
}

#[test]
fn unterminated_string_runs_to_the_end() {
    let tokens = tokenize(b"{{ \"abc }}");
    assert_eq!(tokens[1], Token { kind: TokenKind::UnterminatedString, span: span(3, 10, 0, 3) });
    assert_eq!(tokens[2].kind, TokenKind::EndOfInput);
    assert_eq!(tokens.len(), 3);
}

#[test]
fn unknown_byte_becomes_an_error_token() {
    let tokens = tokenize(b"{{ a ! b }}");
    assert_eq!(tokens[2], Token { kind: TokenKind::Unknown, span: span(5, 6, 0, 5) });
    assert_eq!(tokens[3].kind, TokenKind::Identifier);
}

#[test]
fn sigil_without_a_name_is_unknown() {
    assert_eq!(
        kinds(b"{{ @ ?1 }}"),
        vec![
            TokenKind::BlockOpen,
            TokenKind::Unknown,
            TokenKind::Unknown,
            TokenKind::Unknown,
            TokenKind::BlockClose,
            TokenKind::EndOfInput,
        ]
    );
}

#[test]
fn identifiers_take_letters_digits_and_underscores() {
    let source = b"{{ _a1_B2 }}";
    let tokens = tokenize(source);
    assert_eq!(tokens[1].kind, TokenKind::Identifier);
    assert_eq!(text_of(source, tokens[1].span), b"_a1_B2");
}

#[test]
fn comment_runs_to_the_end_of_its_line() {
    let source = b"{{ # a }} b\nx }}";
    let tokens = tokenize(source);
    assert_eq!(tokens[1].kind, TokenKind::Comment);
    assert_eq!(text_of(source, tokens[1].span), b"# a }} b");
    assert_eq!(tokens[2].kind, TokenKind::Newline);
    assert_eq!(tokens[3].kind, TokenKind::Identifier);
}

#[test]
fn tabs_and_carriage_returns_are_blank_in_a_block() {
    assert_eq!(
        kinds(b"{{\t x \r\n}}"),
        vec![
            TokenKind::BlockOpen,
            TokenKind::Identifier,
            TokenKind::Newline,
            TokenKind::BlockClose,
            TokenKind::EndOfInput,
        ]
    );
}

#[test]
fn block_left_open_ends_with_end_of_input() {
    assert_eq!(
        kinds(b"a {{ b"),
        vec![
            TokenKind::HostText,
            TokenKind::BlockOpen,
            TokenKind::Identifier,
            TokenKind::EndOfInput,
        ]
    );
}

#[test]
fn text_of_cuts_a_span_to_the_source() {
    assert_eq!(text_of(b"abc", span(1, 9, 0, 1)), b"bc");
    assert_eq!(text_of(b"abc", span(7, 9, 0, 7)), b"");
    assert_eq!(text_of(b"abc", span(2, 1, 0, 2)), b"");
}

#[test]
fn locate_finds_line_and_column() {
    assert_eq!(locate(b"a\nbc\nd", 3, 4), span(3, 4, 1, 1));
    assert_eq!(locate(b"a\nbc\nd", 5, 6), span(5, 6, 2, 0));
    assert_eq!(locate(b"abc", 0, 0), span(0, 0, 0, 0));
    assert_eq!(locate(b"a\nb", 3, 3), span(3, 3, 1, 1));
    assert_eq!(locate(b"a\nb", 9, 9), span(9, 9, 0, 9));
}
