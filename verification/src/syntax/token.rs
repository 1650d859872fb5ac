//! Tokens and the source spans they carry.

use vstd::prelude::*;
use crate::text::{count_lines, lemma_line_bounds, line_start, newlines_before};

verus! {

/// A range of the source, with the line and column of its first byte.
#[derive(Clone, Copy, Debug, PartialEq, Eq, Structural)]
pub struct Span {
    /// Offset of the first byte.
    pub start: usize,
    /// Offset just behind the last byte.
    pub end: usize,
    /// Line of the first byte, counted from zero.
    pub line: usize,
    /// Offset of the first byte within its line, counted from zero.
    pub column: usize,
}

/// What a token is.
#[derive(Clone, Copy, Debug, PartialEq, Eq, Structural)]
pub enum TokenKind {
    /// A run of host text, outside any script block.
    HostText,
    /// The delimiter `{{`.
    BlockOpen,
    /// The delimiter `}}`, which ends a block.
    BlockClose,
    /// A name.
    Identifier,
    /// A string literal with both of its quotes.
    StringLiteral,
    /// A string literal whose closing quote is missing.
    UnterminatedString,
    /// The macro-definition sigil with its name: `@name`.
    MacroDef,
    /// The macro-reference sigil with its name: `?name`.
    MacroRef,
    /// The operator `|`.
    Pipe,
    /// The operator `[`.
    LeftBracket,
    /// The operator `:`.
    Colon,
    /// The operator `]`.
    RightBracket,
    /// A comment, from `#` to the end of its line.
    Comment,
    /// A line feed inside a script block.
    Newline,
    /// A byte inside a script block that starts no token.
    Unknown,
    /// The end of the source.
    EndOfInput,
}

/// A token: its kind and the range of the source it was read from.
#[derive(Clone, Copy, Debug, PartialEq, Eq, Structural)]
pub struct Token {
    pub kind: TokenKind,
    pub span: Span,
}

/// The span of `start..end` in `s`.
pub open spec fn span_at(s: Seq<u8>, start: int, end: int) -> Span {
    Span {
        start: start as usize,
        end: end as usize,
        line: newlines_before(s, start) as usize,
        column: (start - line_start(s, start)) as usize,
    }
}

/// Whether `span` is a range of a source of `n` bytes.
pub open spec fn within(span: Span, n: int) -> bool {
    span.start <= span.end && span.end as int <= n
}

/// The bytes of `s` that `span` covers. A span that reaches beyond `s` is cut
/// to fit, and one that ends before it starts covers nothing.
pub open spec fn span_text(s: Seq<u8>, span: Span) -> Seq<u8> {
    let start = if span.start as int <= s.len() { span.start as int } else { s.len() as int };
    let end = if span.end as int <= s.len() { span.end as int } else { s.len() as int };
    if start <= end {
        s.subrange(start, end)
    } else {
        Seq::empty()
    }
}

/// The bytes of `source` that `span` covers.
pub fn text_of(source: &[u8], span: Span) -> (r: &[u8])
    ensures
        r@ == span_text(source@, span),
{
    let start = if span.start <= source.len() { span.start } else { source.len() };
    let end = if span.end <= source.len() { span.end } else { source.len() };
    if start <= end {
        vstd::slice::slice_subrange(source, start, end)
    } else {
        vstd::slice::slice_subrange(source, 0, 0)
    }
}

/// The span of `start..end` in `source`, with its line and column.
pub fn locate(source: &[u8], start: usize, end: usize) -> (span: Span)
    ensures
        span == span_at(source@, start as int, end as int),
{
    if start <= source.len() {
        let at = count_lines(source, 0, start, 0, 0);
        proof {
            lemma_line_bounds(source@, start as int);
        }
        Span { start, end, line: at.0, column: start - at.1 }
    } else {
        Span { start, end, line: 0, column: start }
    }
}

} // verus!
