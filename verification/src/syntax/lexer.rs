//! The lexer: from source bytes to tokens.

use vstd::prelude::*;
use crate::text::{
    at_close, at_open, blank, closes_block, count_lines, host_end, ident_end, ident_start, is_blank,
    is_ident_start, lemma_host_end_bounds, lemma_ident_end_bounds, lemma_line_bounds,
    lemma_line_end_bounds, lemma_string_end_bounds, line_end, line_start, newlines_before,
    opens_block, scan_host, scan_ident, scan_line, scan_string, string_end,
};
use crate::syntax::token::{span_at, within, Span, Token, TokenKind};

verus! {

/// The token that starts at `pos` in host text, and where it ends.
pub open spec fn host_token(s: Seq<u8>, pos: int) -> (TokenKind, int) {
    if opens_block(s, pos) {
        (TokenKind::BlockOpen, pos + 2)
    } else {
        (TokenKind::HostText, host_end(s, pos))
    }
}

/// The token that starts at the non-blank byte `pos` of a script block, and
/// where it ends.
pub open spec fn script_token(s: Seq<u8>, pos: int) -> (TokenKind, int) {
    let b = s[pos];
    if closes_block(s, pos) {
        (TokenKind::BlockClose, pos + 2)
    } else if b == '\n' as u8 {
        (TokenKind::Newline, pos + 1)
    } else if b == '#' as u8 {
        (TokenKind::Comment, line_end(s, pos + 1))
    } else if b == '"' as u8 {
        let close = string_end(s, pos + 1);
        if close < s.len() {
            (TokenKind::StringLiteral, close + 1)
        } else {
            (TokenKind::UnterminatedString, s.len() as int)
        }
    } else if b == '@' as u8 && pos + 1 < s.len() && is_ident_start(s[pos + 1]) {
        (TokenKind::MacroDef, ident_end(s, pos + 1))
    } else if b == '?' as u8 && pos + 1 < s.len() && is_ident_start(s[pos + 1]) {
        (TokenKind::MacroRef, ident_end(s, pos + 1))
    } else if is_ident_start(b) {
        (TokenKind::Identifier, ident_end(s, pos))
    } else if b == '|' as u8 {
        (TokenKind::Pipe, pos + 1)
    } else if b == '[' as u8 {
        (TokenKind::LeftBracket, pos + 1)
    } else if b == ':' as u8 {
        (TokenKind::Colon, pos + 1)
    } else if b == ']' as u8 {
        (TokenKind::RightBracket, pos + 1)
    } else {
        (TokenKind::Unknown, pos + 1)
    }
}

/// The token that starts at `pos`, and where it ends.
pub open spec fn token_at(s: Seq<u8>, pos: int, in_block: bool) -> (TokenKind, int) {
    if in_block {
        script_token(s, pos)
    } else {
        host_token(s, pos)
    }
}

/// Whether the lexer is inside a script block after a token of `kind`.
pub open spec fn block_after(kind: TokenKind, in_block: bool) -> bool {
    match kind {
        TokenKind::BlockOpen => true,
        TokenKind::BlockClose => false,
        _ => in_block,
    }
}

/// Every token is at least one byte long and ends inside the source.
pub proof fn lemma_token_bounds(s: Seq<u8>, pos: int, in_block: bool)
    requires
        0 <= pos < s.len(),
    ensures
        pos < token_at(s, pos, in_block).1 <= s.len(),
{
    lemma_host_end_bounds(s, pos + 1);
    lemma_line_end_bounds(s, pos + 1);
    lemma_string_end_bounds(s, pos + 1);
    lemma_ident_end_bounds(s, pos + 1);
    if pos + 1 < s.len() {
        lemma_ident_end_bounds(s, pos + 2);
    }
}

/// The tokens of `s` from `pos` on, the last of them `EndOfInput`.
pub open spec fn lex_from(s: Seq<u8>, pos: int, in_block: bool) -> Seq<Token>
    decreases s.len() - pos,
{
    if pos < 0 || pos >= s.len() {
        seq![Token { kind: TokenKind::EndOfInput, span: span_at(s, s.len() as int, s.len() as int) }]
    } else if in_block && is_blank(s[pos]) {
        lex_from(s, pos + 1, in_block)
    } else {
        let (kind, end) = token_at(s, pos, in_block);
        proof {
            lemma_token_bounds(s, pos, in_block);
        }
        seq![Token { kind, span: span_at(s, pos, end) }] + lex_from(
            s,
            end,
            block_after(kind, in_block),
        )
    }
}

/// The tokens of a whole template.
pub open spec fn lex(s: Seq<u8>) -> Seq<Token> {
    lex_from(s, 0, false)
}

/// Whether `tokens` lie within a source of `n` bytes, one behind the other
/// from `from` on: each is a range of the source, none starts before an
/// earlier one ends, and the last is `EndOfInput`.
pub open spec fn in_order(tokens: Seq<Token>, from: int, n: int) -> bool {
    &&& tokens.len() >= 1
    &&& tokens.last().kind == TokenKind::EndOfInput
    &&& forall|k: int|
        0 <= k < tokens.len() ==> within((#[trigger] tokens[k]).span, n) && from
            <= tokens[k].span.start
    &&& forall|i: int, j: int|
        0 <= i < j < tokens.len() ==> (#[trigger] tokens[i]).span.end <= (#[trigger] tokens[j]).span.start
}

/// A token before tokens in order that start where it ends is in order with
/// them.
proof fn lemma_in_order_prepend(first: Token, rest: Seq<Token>, from: int, n: int)
    requires
        within(first.span, n),
        from <= first.span.start,
        in_order(rest, first.span.end as int, n),
    ensures
        in_order(seq![first] + rest, from, n),
{
    let tokens = seq![first] + rest;
    assert(tokens.last() == rest.last());
    assert forall|k: int| 0 <= k < tokens.len() implies within((#[trigger] tokens[k]).span, n)
        && from <= tokens[k].span.start by {
        if k > 0 {
            assert(tokens[k] == rest[k - 1]);
        }
    }
    assert forall|i: int, j: int| 0 <= i < j < tokens.len() implies (#[trigger] tokens[i]).span.end
        <= (#[trigger] tokens[j]).span.start by {
        assert(tokens[j] == rest[j - 1]);
        if i > 0 {
            assert(tokens[i] == rest[i - 1]);
        }
    }
}

/// Tokens in order from `from` on are in order from any place before it.
proof fn lemma_in_order_earlier(tokens: Seq<Token>, from: int, earlier: int, n: int)
    requires
        in_order(tokens, from, n),
        earlier <= from,
    ensures
        in_order(tokens, earlier, n),
{
}

/// The tokens of a source lie within it, one behind the other.
pub proof fn lemma_lex_spans(s: Seq<u8>, pos: int, in_block: bool)
    requires
        0 <= pos <= s.len() <= usize::MAX,
    ensures
        in_order(lex_from(s, pos, in_block), pos, s.len() as int),
    decreases s.len() - pos,
{
    if pos >= s.len() {
    } else if in_block && is_blank(s[pos]) {
        lemma_lex_spans(s, pos + 1, in_block);
        lemma_in_order_earlier(lex_from(s, pos + 1, in_block), pos + 1, pos, s.len() as int);
    } else {
        let kind = token_at(s, pos, in_block).0;
        let end = token_at(s, pos, in_block).1;
        lemma_token_bounds(s, pos, in_block);
        let rest = lex_from(s, end, block_after(kind, in_block));
        lemma_lex_spans(s, end, block_after(kind, in_block));
        let first = Token { kind, span: span_at(s, pos, end) };
        assert(first.span.start == pos && first.span.end == end);
        lemma_in_order_prepend(first, rest, pos, s.len() as int);
    }
}

/// Whether each token starts behind where the one before it starts.
pub open spec fn rising(tokens: Seq<Token>) -> bool {
    forall|i: int, j: int|
        0 <= i < j < tokens.len() ==> (#[trigger] tokens[i]).span.start < (#[trigger] tokens[j]).span.start
}

/// The tokens of a source start one behind the other: no two at one place.
pub proof fn lemma_lex_rising(s: Seq<u8>, pos: int, in_block: bool)
    requires
        0 <= pos <= s.len() <= usize::MAX,
    ensures
        rising(lex_from(s, pos, in_block)),
    decreases s.len() - pos,
{
    if pos >= s.len() {
    } else if in_block && is_blank(s[pos]) {
        lemma_lex_rising(s, pos + 1, in_block);
    } else {
        let kind = token_at(s, pos, in_block).0;
        let end = token_at(s, pos, in_block).1;
        lemma_token_bounds(s, pos, in_block);
        let rest = lex_from(s, end, block_after(kind, in_block));
        lemma_lex_rising(s, end, block_after(kind, in_block));
        lemma_lex_spans(s, end, block_after(kind, in_block));
        let first = Token { kind, span: span_at(s, pos, end) };
        assert(first.span.start == pos);
        let tokens = seq![first] + rest;
        assert forall|i: int, j: int| 0 <= i < j < tokens.len() implies (#[trigger] tokens[i]).span.start
            < (#[trigger] tokens[j]).span.start by {
            assert(tokens[j] == rest[j - 1]);
            if i > 0 {
                assert(tokens[i] == rest[i - 1]);
            }
        }
    }
}

fn scan_token(s: &[u8], pos: usize, in_block: bool) -> (r: (TokenKind, usize))
    requires
        pos < s@.len(),
    ensures
        r.0 == token_at(s@, pos as int, in_block).0,
        r.1 == token_at(s@, pos as int, in_block).1,
        pos < r.1 <= s@.len(),
{
    proof {
        lemma_token_bounds(s@, pos as int, in_block);
    }
    let more = s.len() - pos > 1;
    if !in_block {
        if at_open(s, pos) {
            (TokenKind::BlockOpen, pos + 2)
        } else {
            (TokenKind::HostText, scan_host(s, pos))
        }
    } else {
        let b = s[pos];
        if at_close(s, pos) {
            (TokenKind::BlockClose, pos + 2)
        } else if b == '\n' as u8 {
            (TokenKind::Newline, pos + 1)
        } else if b == '#' as u8 {
            (TokenKind::Comment, scan_line(s, pos + 1))
        } else if b == '"' as u8 {
            let close = scan_string(s, pos + 1);
            if close < s.len() {
                (TokenKind::StringLiteral, close + 1)
            } else {
                (TokenKind::UnterminatedString, s.len())
            }
        } else if b == '@' as u8 && more && ident_start(s[pos + 1]) {
            (TokenKind::MacroDef, scan_ident(s, pos + 1))
        } else if b == '?' as u8 && more && ident_start(s[pos + 1]) {
            (TokenKind::MacroRef, scan_ident(s, pos + 1))
        } else if ident_start(b) {
            (TokenKind::Identifier, scan_ident(s, pos))
        } else if b == '|' as u8 {
            (TokenKind::Pipe, pos + 1)
        } else if b == '[' as u8 {
            (TokenKind::LeftBracket, pos + 1)
        } else if b == ':' as u8 {
            (TokenKind::Colon, pos + 1)
        } else if b == ']' as u8 {
            (TokenKind::RightBracket, pos + 1)
        } else {
            (TokenKind::Unknown, pos + 1)
        }
    }
}

/// Splits a template into tokens. Host text passes through as it is; inside a
/// script block a byte that starts no token becomes an `Unknown` token, so the
/// lexer itself never fails.
pub fn tokenize(source: &[u8]) -> (tokens: Vec<Token>)
    ensures
        tokens@ == lex(source@),
{
    let mut tokens: Vec<Token> = Vec::new();
    let mut pos: usize = 0;
    let mut in_block = false;
    let mut line: usize = 0;
    let mut start: usize = 0;
    while pos < source.len()
        invariant
            pos <= source@.len(),
            line == newlines_before(source@, pos as int),
            start == line_start(source@, pos as int),
            lex(source@) == tokens@ + lex_from(source@, pos as int, in_block),
        decreases source@.len() - pos,
    {
        proof {
            lemma_line_bounds(source@, pos as int);
        }
        if in_block && blank(source[pos]) {
            pos += 1;
        } else {
            let (kind, end) = scan_token(source, pos, in_block);
            let token = Token { kind, span: Span { start: pos, end, line, column: pos - start } };
            let ghost before = tokens@;
            tokens.push(token);
            let moved = count_lines(source, pos, end, line, start);
            proof {
                let rest = lex_from(source@, end as int, block_after(kind, in_block));
                assert(token == Token { kind, span: span_at(source@, pos as int, end as int) });
                assert(before + (seq![token] + rest) =~= before.push(token) + rest);
            }
            line = moved.0;
            start = moved.1;
            pos = end;
            in_block = block_after_exec(kind, in_block);
        }
    }
    proof {
        lemma_line_bounds(source@, pos as int);
    }
    let last = Token {
        kind: TokenKind::EndOfInput,
        span: Span { start: pos, end: pos, line, column: pos - start },
    };
    let ghost before = tokens@;
    tokens.push(last);
    assert(before + seq![last] =~= before.push(last));
    tokens
}

fn block_after_exec(kind: TokenKind, in_block: bool) -> (r: bool)
    ensures
        r == block_after(kind, in_block),
{
    match kind {
        TokenKind::BlockOpen => true,
        TokenKind::BlockClose => false,
        _ => in_block,
    }
}

} // verus!
