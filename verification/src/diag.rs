//! Diagnostics: an error rendered with its place in the source.
//!
//! A rendered diagnostic names its severity and message, then the file label
//! with line and column, both counted from one, then shows the offending
//! line with carets under the offending range.

use vstd::prelude::*;
use vstd::string::*;
use crate::ir::instr::{SemanticError, SemanticErrorView};
use crate::syntax::token::{Span, TokenKind};
use crate::syntax::tree::{Expected, SyntaxError};
use crate::text::{
    decimal, emit, line_end, line_start, pad, repeat, scan_line, start_of_line, to_decimal,
};
use crate::vm::semantics::{RuntimeError, RuntimeErrorView};

verus! {

/// How grave a diagnostic is.
#[derive(Clone, Copy, Debug, PartialEq, Eq, Structural)]
pub enum Severity {
    /// The failure itself.
    Error,
    /// A remark that goes with an error.
    Note,
}

/// A message about a place in the source, or about the template as a whole.
#[derive(Clone, Debug, PartialEq, Eq)]
pub struct Diagnostic {
    pub severity: Severity,
    pub message: Vec<u8>,
    /// The offending range; `None` where the failure has no place in the
    /// source.
    pub span: Option<Span>,
}

/// The mathematical value of a `Diagnostic`.
pub struct DiagnosticView {
    pub severity: Severity,
    pub message: Seq<u8>,
    pub span: Option<Span>,
}

impl View for Diagnostic {
    type V = DiagnosticView;

    open spec fn view(&self) -> DiagnosticView {
        DiagnosticView { severity: self.severity, message: self.message@, span: self.span }
    }
}

/// The word for a severity.
pub open spec fn severity_word(severity: Severity) -> &'static str {
    match severity {
        Severity::Error => "error",
        Severity::Note => "note",
    }
}

/// The first line of a rendered diagnostic.
pub open spec fn headline(severity: Severity, message: Seq<u8>) -> Seq<u8> {
    severity_word(severity).spec_bytes() + ": ".spec_bytes() + message + "\n".spec_bytes()
}

/// The line that names the place: label, line and column.
pub open spec fn location(label: Seq<u8>, span: Span) -> Seq<u8> {
    " --> ".spec_bytes() + label + ":".spec_bytes() + decimal((span.line + 1) as nat)
        + ":".spec_bytes() + decimal((span.column + 1) as nat) + "\n".spec_bytes()
}

/// The offset that a span points at, cut to fit the source.
pub open spec fn anchor(s: Seq<u8>, span: Span) -> int {
    if span.start as int <= s.len() {
        span.start as int
    } else {
        s.len() as int
    }
}

/// How many carets mark a span: one for each of its bytes on the line it
/// starts on, and at least one.
pub open spec fn carets(s: Seq<u8>, span: Span) -> nat {
    let from = anchor(s, span);
    let to = line_end(s, from);
    let end = if span.end as int <= to {
        span.end as int
    } else {
        to
    };
    if end - from >= 1 {
        (end - from) as nat
    } else {
        1
    }
}

/// The line of the source that a span starts on, and under it the carets.
pub open spec fn excerpt(s: Seq<u8>, span: Span) -> Seq<u8> {
    let from = anchor(s, span);
    s.subrange(line_start(s, from), line_end(s, from)) + "\n".spec_bytes() + repeat(
        ' ' as u8,
        (from - line_start(s, from)) as nat,
    ) + repeat('^' as u8, carets(s, span)) + "\n".spec_bytes()
}

/// A rendered diagnostic on the source `s`, which `label` names.
pub open spec fn diagnostic_text(label: Seq<u8>, s: Seq<u8>, d: DiagnosticView) -> Seq<u8> {
    match d.span {
        Some(span) => headline(d.severity, d.message) + location(label, span) + excerpt(s, span),
        None => headline(d.severity, d.message) + " --> ".spec_bytes() + label + "\n".spec_bytes(),
    }
}

/// What a token kind is called in a message.
pub open spec fn kind_name(kind: TokenKind) -> &'static str {
    match kind {
        TokenKind::HostText => "host text",
        TokenKind::BlockOpen => "`{{`",
        TokenKind::BlockClose => "`}}`",
        TokenKind::Identifier => "a name",
        TokenKind::StringLiteral => "a string literal",
        TokenKind::UnterminatedString => "a string literal without its closing quote",
        TokenKind::MacroDef => "a macro definition",
        TokenKind::MacroRef => "a macro reference",
        TokenKind::Pipe => "`|`",
        TokenKind::LeftBracket => "`[`",
        TokenKind::Colon => "`:`",
        TokenKind::RightBracket => "`]`",
        TokenKind::Comment => "a comment",
        TokenKind::Newline => "the end of the line",
        TokenKind::Unknown => "an unknown character",
        TokenKind::EndOfInput => "the end of the template",
    }
}

/// What the parser was looking for, as a message has it.
pub open spec fn expected_name(expected: Expected) -> &'static str {
    match expected {
        Expected::Template => "host text or `{{`",
        Expected::Statement => "a statement",
        Expected::Operand => "a string literal or a name",
        Expected::Pipe => "`|`",
        Expected::Colon => "`:`",
        Expected::RightBracket => "`]`",
        Expected::MacroRef => "a macro reference",
        Expected::BlockClose => "`}}`",
        Expected::Separator => "white space or the end of the line",
    }
}

/// The message of a syntax error: what was expected, and what was found.
pub open spec fn syntax_message(e: SyntaxError) -> Seq<u8> {
    "expected ".spec_bytes() + expected_name(e.expected).spec_bytes() + ", found ".spec_bytes()
        + kind_name(e.found).spec_bytes()
}

/// The diagnostic of a syntax error.
pub open spec fn syntax_diagnostic(e: SyntaxError) -> DiagnosticView {
    DiagnosticView { severity: Severity::Error, message: syntax_message(e), span: Some(e.span) }
}

/// The message of a semantic error.
pub open spec fn semantic_message(e: SemanticErrorView) -> Seq<u8> {
    match e {
        SemanticErrorView::DuplicateMacro { name, first_span, dup_span } => "macro `".spec_bytes()
            + name + "` is defined twice".spec_bytes(),
        SemanticErrorView::UnknownMacro { name, span } => "unknown macro `".spec_bytes() + name
            + "`".spec_bytes(),
        SemanticErrorView::MalformedInterpolation { span } => "malformed interpolation".spec_bytes(),
    }
}

/// The diagnostic of a semantic error. A duplicate macro is reported where
/// it is defined again.
pub open spec fn semantic_diagnostic(e: SemanticErrorView) -> DiagnosticView {
    DiagnosticView {
        severity: Severity::Error,
        message: semantic_message(e),
        span: Some(
            match e {
                SemanticErrorView::DuplicateMacro { name, first_span, dup_span } => dup_span,
                SemanticErrorView::UnknownMacro { name, span } => span,
                SemanticErrorView::MalformedInterpolation { span } => span,
            },
        ),
    }
}

/// The note that goes with a semantic error: for a duplicate macro, where
/// the macro was first defined.
pub open spec fn semantic_note(e: SemanticErrorView) -> Option<DiagnosticView> {
    match e {
        SemanticErrorView::DuplicateMacro { name, first_span, dup_span } => Some(
            DiagnosticView {
                severity: Severity::Note,
                message: "first defined here".spec_bytes(),
                span: Some(first_span),
            },
        ),
        _ => None,
    }
}

/// A semantic error as `write_message` renders it: its diagnostic, and then
/// its note, if it has one.
pub open spec fn semantic_report(label: Seq<u8>, s: Seq<u8>, e: SemanticErrorView) -> Seq<u8> {
    match semantic_note(e) {
        Some(note) => diagnostic_text(label, s, semantic_diagnostic(e)) + diagnostic_text(
            label,
            s,
            note,
        ),
        None => diagnostic_text(label, s, semantic_diagnostic(e)),
    }
}

/// The message of a runtime error.
pub open spec fn runtime_message(e: RuntimeErrorView) -> Seq<u8> {
    match e {
        RuntimeErrorView::UndefinedVariable { name } => "undefined variable `".spec_bytes() + name
            + "`".spec_bytes(),
        RuntimeErrorView::UndefinedArray { name } => "undefined array `".spec_bytes() + name
            + "`".spec_bytes(),
    }
}

/// The diagnostic of a runtime error, which has no place in the source.
pub open spec fn runtime_diagnostic(e: RuntimeErrorView) -> DiagnosticView {
    DiagnosticView { severity: Severity::Error, message: runtime_message(e), span: None }
}

fn kind_word(kind: TokenKind) -> (r: &'static str)
    ensures
        r == kind_name(kind),
{
    match kind {
        TokenKind::HostText => "host text",
        TokenKind::BlockOpen => "`{{`",
        TokenKind::BlockClose => "`}}`",
        TokenKind::Identifier => "a name",
        TokenKind::StringLiteral => "a string literal",
        TokenKind::UnterminatedString => "a string literal without its closing quote",
        TokenKind::MacroDef => "a macro definition",
        TokenKind::MacroRef => "a macro reference",
        TokenKind::Pipe => "`|`",
        TokenKind::LeftBracket => "`[`",
        TokenKind::Colon => "`:`",
        TokenKind::RightBracket => "`]`",
        TokenKind::Comment => "a comment",
        TokenKind::Newline => "the end of the line",
        TokenKind::Unknown => "an unknown character",
        TokenKind::EndOfInput => "the end of the template",
    }
}

fn expected_word(expected: Expected) -> (r: &'static str)
    ensures
        r == expected_name(expected),
{
    match expected {
        Expected::Template => "host text or `{{`",
        Expected::Statement => "a statement",
        Expected::Operand => "a string literal or a name",
        Expected::Pipe => "`|`",
        Expected::Colon => "`:`",
        Expected::RightBracket => "`]`",
        Expected::MacroRef => "a macro reference",
        Expected::BlockClose => "`}}`",
        Expected::Separator => "white space or the end of the line",
    }
}

fn write_headline(sink: &mut Vec<u8>, severity: Severity, message: &[u8])
    ensures
        final(sink)@ == old(sink)@ + headline(severity, message@),
{
    match severity {
        Severity::Error => emit(sink, "error".as_bytes()),
        Severity::Note => emit(sink, "note".as_bytes()),
    }
    emit(sink, ": ".as_bytes());
    emit(sink, message);
    emit(sink, "\n".as_bytes());
    assert(sink@ =~= old(sink)@ + headline(severity, message@));
}

fn write_location(sink: &mut Vec<u8>, label: &str, span: Span)
    ensures
        final(sink)@ == old(sink)@ + location(label.spec_bytes(), span),
{
    emit(sink, " --> ".as_bytes());
    emit(sink, label.as_bytes());
    emit(sink, ":".as_bytes());
    let line = to_decimal(span.line as u128 + 1);
    emit(sink, line.as_slice());
    emit(sink, ":".as_bytes());
    let column = to_decimal(span.column as u128 + 1);
    emit(sink, column.as_slice());
    emit(sink, "\n".as_bytes());
    assert(sink@ =~= old(sink)@ + location(label.spec_bytes(), span));
}

fn write_excerpt(sink: &mut Vec<u8>, source: &[u8], span: Span)
    ensures
        final(sink)@ == old(sink)@ + excerpt(source@, span),
{
    let from = if span.start <= source.len() { span.start } else { source.len() };
    let first = start_of_line(source, from);
    let to = scan_line(source, from);
    let end = if span.end <= to { span.end } else { to };
    let count = if end > from { end - from } else { 1 };
    emit(sink, vstd::slice::slice_subrange(source, first, to));
    emit(sink, "\n".as_bytes());
    pad(sink, ' ' as u8, from - first);
    pad(sink, '^' as u8, count);
    emit(sink, "\n".as_bytes());
    assert(sink@ =~= old(sink)@ + excerpt(source@, span));
}

impl Diagnostic {
    /// Renders this diagnostic on `source`, which `label` names: severity
    /// and message, the place, and the offending line with carets under the
    /// offending range. Without a span only the label is named.
    pub fn write(&self, sink: &mut Vec<u8>, label: &str, source: &[u8])
        ensures
            final(sink)@ == old(sink)@ + diagnostic_text(label.spec_bytes(), source@, self@),
    {
        write_headline(sink, self.severity, self.message.as_slice());
        match self.span {
            Some(span) => {
                write_location(sink, label, span);
                write_excerpt(sink, source, span);
            },
            None => {
                emit(sink, " --> ".as_bytes());
                emit(sink, label.as_bytes());
                emit(sink, "\n".as_bytes());
            },
        }
        assert(sink@ =~= old(sink)@ + diagnostic_text(label.spec_bytes(), source@, self@));
    }
}

impl SyntaxError {
    /// This error as a diagnostic.
    pub fn diagnostic(&self) -> (d: Diagnostic)
        ensures
            d@ == syntax_diagnostic(*self),
    {
        let mut message: Vec<u8> = Vec::new();
        emit(&mut message, "expected ".as_bytes());
        emit(&mut message, expected_word(self.expected).as_bytes());
        emit(&mut message, ", found ".as_bytes());
        emit(&mut message, kind_word(self.found).as_bytes());
        assert(message@ =~= syntax_message(*self));
        Diagnostic { severity: Severity::Error, message, span: Some(self.span) }
    }

    /// Renders this error on `source`, which `label` names.
    pub fn write_message(&self, sink: &mut Vec<u8>, label: &str, source: &[u8])
        ensures
            final(sink)@ == old(sink)@ + diagnostic_text(
                label.spec_bytes(),
                source@,
                syntax_diagnostic(*self),
            ),
    {
        self.diagnostic().write(sink, label, source);
    }
}

impl SemanticError {
    /// This error as a diagnostic.
    pub fn diagnostic(&self) -> (d: Diagnostic)
        ensures
            d@ == semantic_diagnostic(self@),
    {
        let mut message: Vec<u8> = Vec::new();
        match self {
            SemanticError::DuplicateMacro { name, first_span, dup_span } => {
                emit(&mut message, "macro `".as_bytes());
                emit(&mut message, name.as_slice());
                emit(&mut message, "` is defined twice".as_bytes());
                assert(message@ =~= semantic_message(self@));
                Diagnostic { severity: Severity::Error, message, span: Some(*dup_span) }
            },
            SemanticError::UnknownMacro { name, span } => {
                emit(&mut message, "unknown macro `".as_bytes());
                emit(&mut message, name.as_slice());
                emit(&mut message, "`".as_bytes());
                assert(message@ =~= semantic_message(self@));
                Diagnostic { severity: Severity::Error, message, span: Some(*span) }
            },
            SemanticError::MalformedInterpolation { span } => {
                emit(&mut message, "malformed interpolation".as_bytes());
                assert(message@ =~= semantic_message(self@));
                Diagnostic { severity: Severity::Error, message, span: Some(*span) }
            },
        }
    }

    /// The note that goes with this error, if it has one.
    pub fn note(&self) -> (n: Option<Diagnostic>)
        ensures
            match n {
                Some(note) => semantic_note(self@) == Some(note@),
                None => semantic_note(self@) is None,
            },
    {
        match self {
            SemanticError::DuplicateMacro { name, first_span, dup_span } => {
                let mut message: Vec<u8> = Vec::new();
                emit(&mut message, "first defined here".as_bytes());
                assert(message@ =~= "first defined here".spec_bytes());
                Some(Diagnostic { severity: Severity::Note, message, span: Some(*first_span) })
            },
            _ => None,
        }
    }

    /// Renders this error on `source`, which `label` names. A duplicate
    /// macro is shown where it is defined again, and then where it was first
    /// defined.
    pub fn write_message(&self, sink: &mut Vec<u8>, label: &str, source: &[u8])
        ensures
            final(sink)@ == old(sink)@ + semantic_report(label.spec_bytes(), source@, self@),
    {
        self.diagnostic().write(sink, label, source);
        match self.note() {
            Some(note) => {
                note.write(sink, label, source);
                assert(sink@ =~= old(sink)@ + semantic_report(label.spec_bytes(), source@, self@));
            },
            None => {},
        }
    }
}

impl RuntimeError {
    /// This error as a diagnostic.
    pub fn diagnostic(&self) -> (d: Diagnostic)
        ensures
            d@ == runtime_diagnostic(self@),
    {
        let mut message: Vec<u8> = Vec::new();
        match self {
            RuntimeError::UndefinedVariable { name } => {
                emit(&mut message, "undefined variable `".as_bytes());
                emit(&mut message, name.as_slice());
                emit(&mut message, "`".as_bytes());
            },
            RuntimeError::UndefinedArray { name } => {
                emit(&mut message, "undefined array `".as_bytes());
                emit(&mut message, name.as_slice());
                emit(&mut message, "`".as_bytes());
            },
        }
        assert(message@ =~= runtime_message(self@));
        Diagnostic { severity: Severity::Error, message, span: None }
    }

    /// Renders this error. A runtime error has no place in the source, so
    /// only the label is named.
    pub fn write_message(&self, sink: &mut Vec<u8>, label: &str, source: &[u8])
        ensures
            final(sink)@ == old(sink)@ + diagnostic_text(
                label.spec_bytes(),
                source@,
                runtime_diagnostic(self@),
            ),
    {
        self.diagnostic().write(sink, label, source);
    }
}

} // verus!
