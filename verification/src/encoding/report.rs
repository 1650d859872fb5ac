//! Reports and dumps keep text well encoded, and so a run of a session
//! leaves UTF-8 in its output and its console.

use vstd::prelude::*;
use vstd::string::*;
use vstd::utf8::{encode_utf8_valid_utf8, valid_utf8, valid_utf8_concat};
use crate::diag::{
    anchor, carets, diagnostic_text, excerpt, expected_name, headline, kind_name, location,
    runtime_diagnostic, runtime_message, semantic_diagnostic, semantic_message, semantic_note,
    semantic_report, severity_word, syntax_diagnostic, syntax_message, DiagnosticView, Severity,
};
use crate::encoding::{
    ascii, cut, error_named, lemma_ascii_valid, lemma_decimal_valid,
    lemma_execute_valid, lemma_lex_sound, lemma_line_end_stops, lemma_lines_valid,
    lemma_nodes_sound, lemma_nodes_valid, lemma_session_env_valid, lemma_valid_between,
    literals_valid, macros_named, macros_valid, names_valid, program_named, program_valid,
};
use crate::ir::dump::{code_text, depth_after, instr_text, ir_text, macro_text, macros_text, shown_depth};
use crate::ir::instr::{InstrView, IrView, MacroView, SemanticErrorView};
use crate::ir::lower::lower;
use crate::playground::{session_env, shown_console, shown_output, split_arrays, LABEL};
use crate::syntax::lexer::lex;
use crate::syntax::parser::parse_spec;
use crate::syntax::token::Span;
use crate::syntax::tree::SyntaxError;
use crate::text::{
    lemma_line_bounds, lemma_line_end_bounds, line_end, line_start, lines, repeat,
};
use crate::vm::machine::{arrays_text, items_text, state_text, variables_text};
use crate::vm::semantics::RuntimeErrorView;

verus! {

/// The bytes of a string are well encoded.
pub proof fn lemma_literal_valid(t: &str)
    ensures
        valid_utf8(t.spec_bytes()),
{
    encode_utf8_valid_utf8(t@);
}

/// A run of one ASCII byte is well encoded.
pub proof fn lemma_repeat_valid(b: u8, n: nat)
    requires
        ascii(b),
    ensures
        valid_utf8(repeat(b, n)),
{
    lemma_ascii_valid(repeat(b, n));
}

/// The first line of a rendered diagnostic is well encoded.
pub proof fn lemma_headline_valid(severity: Severity, message: Seq<u8>)
    requires
        valid_utf8(message),
    ensures
        valid_utf8(headline(severity, message)),
{
    let word = severity_word(severity).spec_bytes();
    lemma_literal_valid(severity_word(severity));
    lemma_literal_valid(": ");
    lemma_literal_valid("\n");
    valid_utf8_concat(word, ": ".spec_bytes());
    valid_utf8_concat(word + ": ".spec_bytes(), message);
    valid_utf8_concat(word + ": ".spec_bytes() + message, "\n".spec_bytes());
}

/// The line that names the place is well encoded.
pub proof fn lemma_location_valid(label: Seq<u8>, span: Span)
    requires
        valid_utf8(label),
    ensures
        valid_utf8(location(label, span)),
{
    lemma_literal_valid(" --> ");
    lemma_literal_valid(":");
    lemma_literal_valid("\n");
    let line = crate::text::decimal((span.line + 1) as nat);
    let column = crate::text::decimal((span.column + 1) as nat);
    lemma_decimal_valid((span.line + 1) as nat);
    lemma_decimal_valid((span.column + 1) as nat);
    let a = " --> ".spec_bytes() + label;
    valid_utf8_concat(" --> ".spec_bytes(), label);
    valid_utf8_concat(a, ":".spec_bytes());
    let b = a + ":".spec_bytes();
    valid_utf8_concat(b, line);
    let c = b + line;
    valid_utf8_concat(c, ":".spec_bytes());
    let d = c + ":".spec_bytes();
    valid_utf8_concat(d, column);
    valid_utf8_concat(d + column, "\n".spec_bytes());
}

/// A line starts at a cut: at the start of the text or behind a line feed.
pub proof fn lemma_line_start_cut(s: Seq<u8>, pos: int)
    requires
        0 <= pos <= s.len(),
    ensures
        cut(s, line_start(s, pos)),
    decreases pos,
{
    lemma_line_bounds(s, pos);
    if pos > 0 && s[pos - 1] != '\n' as u8 {
        lemma_line_start_cut(s, pos - 1);
    }
}

/// The excerpt of well-encoded text is well encoded.
pub proof fn lemma_excerpt_valid(s: Seq<u8>, span: Span)
    requires
        valid_utf8(s),
    ensures
        valid_utf8(excerpt(s, span)),
{
    let from = anchor(s, span);
    let first = line_start(s, from);
    let last = line_end(s, from);
    lemma_line_bounds(s, from);
    lemma_line_end_bounds(s, from);
    lemma_line_start_cut(s, from);
    lemma_line_end_stops(s, from);
    lemma_valid_between(s, first, last);
    lemma_literal_valid("\n");
    let spaces = repeat(' ' as u8, (from - first) as nat);
    let marks = repeat('^' as u8, carets(s, span));
    lemma_repeat_valid(' ' as u8, (from - first) as nat);
    lemma_repeat_valid('^' as u8, carets(s, span));
    let a = s.subrange(first, last) + "\n".spec_bytes();
    valid_utf8_concat(s.subrange(first, last), "\n".spec_bytes());
    valid_utf8_concat(a, spaces);
    valid_utf8_concat(a + spaces, marks);
    valid_utf8_concat(a + spaces + marks, "\n".spec_bytes());
}

/// A diagnostic with a well-encoded message, rendered on well-encoded text
/// under a well-encoded label, is well encoded.
pub proof fn lemma_diagnostic_valid(label: Seq<u8>, s: Seq<u8>, d: DiagnosticView)
    requires
        valid_utf8(label),
        valid_utf8(s),
        valid_utf8(d.message),
    ensures
        valid_utf8(diagnostic_text(label, s, d)),
{
    lemma_headline_valid(d.severity, d.message);
    let head = headline(d.severity, d.message);
    match d.span {
        Some(span) => {
            lemma_location_valid(label, span);
            lemma_excerpt_valid(s, span);
            valid_utf8_concat(head, location(label, span));
            valid_utf8_concat(head + location(label, span), excerpt(s, span));
        },
        None => {
            lemma_literal_valid(" --> ");
            lemma_literal_valid("\n");
            valid_utf8_concat(head, " --> ".spec_bytes());
            valid_utf8_concat(head + " --> ".spec_bytes(), label);
            valid_utf8_concat(head + " --> ".spec_bytes() + label, "\n".spec_bytes());
        },
    }
}

/// The message of a syntax error is well encoded.
pub proof fn lemma_syntax_message_valid(e: SyntaxError)
    ensures
        valid_utf8(syntax_message(e)),
{
    lemma_literal_valid("expected ");
    lemma_literal_valid(expected_name(e.expected));
    lemma_literal_valid(", found ");
    lemma_literal_valid(kind_name(e.found));
    let a = "expected ".spec_bytes() + expected_name(e.expected).spec_bytes();
    valid_utf8_concat("expected ".spec_bytes(), expected_name(e.expected).spec_bytes());
    valid_utf8_concat(a, ", found ".spec_bytes());
    valid_utf8_concat(a + ", found ".spec_bytes(), kind_name(e.found).spec_bytes());
}

/// The message of a semantic error with a well-encoded name is well
/// encoded.
pub proof fn lemma_semantic_message_valid(e: SemanticErrorView)
    requires
        error_named(e),
    ensures
        valid_utf8(semantic_message(e)),
{
    match e {
        SemanticErrorView::DuplicateMacro { name, first_span, dup_span } => {
            lemma_literal_valid("macro `");
            lemma_literal_valid("` is defined twice");
            valid_utf8_concat("macro `".spec_bytes(), name);
            valid_utf8_concat("macro `".spec_bytes() + name, "` is defined twice".spec_bytes());
        },
        SemanticErrorView::UnknownMacro { name, span } => {
            lemma_literal_valid("unknown macro `");
            lemma_literal_valid("`");
            valid_utf8_concat("unknown macro `".spec_bytes(), name);
            valid_utf8_concat("unknown macro `".spec_bytes() + name, "`".spec_bytes());
        },
        SemanticErrorView::MalformedInterpolation { span } => {
            lemma_literal_valid("malformed interpolation");
        },
    }
}

/// The report of a semantic error with a well-encoded name is well encoded.
pub proof fn lemma_semantic_report_valid(label: Seq<u8>, s: Seq<u8>, e: SemanticErrorView)
    requires
        valid_utf8(label),
        valid_utf8(s),
        error_named(e),
    ensures
        valid_utf8(semantic_report(label, s, e)),
{
    lemma_semantic_message_valid(e);
    lemma_diagnostic_valid(label, s, semantic_diagnostic(e));
    match semantic_note(e) {
        Some(note) => {
            lemma_literal_valid("first defined here");
            lemma_diagnostic_valid(label, s, note);
            valid_utf8_concat(
                diagnostic_text(label, s, semantic_diagnostic(e)),
                diagnostic_text(label, s, note),
            );
        },
        None => {},
    }
}

/// The report of a runtime error with a well-encoded name is well encoded.
pub proof fn lemma_runtime_report_valid(label: Seq<u8>, s: Seq<u8>, e: RuntimeErrorView)
    requires
        valid_utf8(label),
        valid_utf8(s),
        match e {
            RuntimeErrorView::UndefinedVariable { name } => valid_utf8(name),
            RuntimeErrorView::UndefinedArray { name } => valid_utf8(name),
        },
    ensures
        valid_utf8(diagnostic_text(label, s, runtime_diagnostic(e))),
{
    lemma_literal_valid("`");
    match e {
        RuntimeErrorView::UndefinedVariable { name } => {
            lemma_literal_valid("undefined variable `");
            valid_utf8_concat("undefined variable `".spec_bytes(), name);
            valid_utf8_concat("undefined variable `".spec_bytes() + name, "`".spec_bytes());
        },
        RuntimeErrorView::UndefinedArray { name } => {
            lemma_literal_valid("undefined array `");
            valid_utf8_concat("undefined array `".spec_bytes(), name);
            valid_utf8_concat("undefined array `".spec_bytes() + name, "`".spec_bytes());
        },
    }
    assert(valid_utf8(runtime_message(e)));
    lemma_diagnostic_valid(label, s, runtime_diagnostic(e));
}

/// An instruction whose text is well encoded is listed well encoded.
pub proof fn lemma_instr_text_valid(instr: InstrView)
    requires
        match instr {
            InstrView::EmitLiteral { text } => valid_utf8(text),
            InstrView::EmitVar { name } => valid_utf8(name),
            InstrView::BeginArrayIter { array } => valid_utf8(array),
            InstrView::BeginMacroCall { name, index } => valid_utf8(name),
            _ => true,
        },
    ensures
        valid_utf8(instr_text(instr)),
{
    match instr {
        InstrView::EmitLiteral { text } => {
            lemma_literal_valid("EmitLiteral \"");
            lemma_literal_valid("\"");
            valid_utf8_concat("EmitLiteral \"".spec_bytes(), text);
            valid_utf8_concat("EmitLiteral \"".spec_bytes() + text, "\"".spec_bytes());
        },
        InstrView::EmitVar { name } => {
            lemma_literal_valid("EmitVar ");
            valid_utf8_concat("EmitVar ".spec_bytes(), name);
        },
        InstrView::BeginArrayIter { array } => {
            lemma_literal_valid("BeginArrayIter ");
            valid_utf8_concat("BeginArrayIter ".spec_bytes(), array);
        },
        InstrView::EndArrayIter => {
            lemma_literal_valid("EndArrayIter");
        },
        InstrView::BeginMacroCall { name, index } => {
            lemma_literal_valid("BeginMacroCall ");
            valid_utf8_concat("BeginMacroCall ".spec_bytes(), name);
        },
        InstrView::EndMacroCall => {
            lemma_literal_valid("EndMacroCall");
        },
    }
}

/// The listing of instructions with well-encoded texts is well encoded.
pub proof fn lemma_code_text_valid(instrs: Seq<InstrView>, i: int, depth: nat)
    requires
        literals_valid(instrs),
        names_valid(instrs),
    ensures
        valid_utf8(code_text(instrs, i, depth)),
    decreases instrs.len() - i,
{
    if 0 <= i < instrs.len() {
        let pad = repeat(' ' as u8, 2 * shown_depth(instrs[i], depth));
        lemma_repeat_valid(' ' as u8, 2 * shown_depth(instrs[i], depth));
        lemma_instr_text_valid(instrs[i]);
        lemma_literal_valid("\n");
        lemma_code_text_valid(instrs, i + 1, depth_after(instrs[i], depth));
        valid_utf8_concat(pad, instr_text(instrs[i]));
        valid_utf8_concat(pad + instr_text(instrs[i]), "\n".spec_bytes());
        valid_utf8_concat(
            pad + instr_text(instrs[i]) + "\n".spec_bytes(),
            code_text(instrs, i + 1, depth_after(instrs[i], depth)),
        );
    }
}

/// The listing of macros with well-encoded texts is well encoded.
pub proof fn lemma_macros_text_valid(macros: Seq<MacroView>, i: int)
    requires
        macros_valid(macros),
        macros_named(macros),
    ensures
        valid_utf8(macros_text(macros, i)),
    decreases macros.len() - i,
{
    if 0 <= i < macros.len() {
        let m = macros[i];
        lemma_literal_valid("  @");
        lemma_literal_valid("\n");
        lemma_literal_valid("    pattern:\n");
        lemma_literal_valid("    body:\n");
        lemma_code_text_valid(m.pattern, 0, 3);
        lemma_code_text_valid(m.body, 0, 3);
        let a = "  @".spec_bytes() + m.name;
        valid_utf8_concat("  @".spec_bytes(), m.name);
        valid_utf8_concat(a, "\n".spec_bytes());
        let b = a + "\n".spec_bytes();
        valid_utf8_concat(b, "    pattern:\n".spec_bytes());
        let c = b + "    pattern:\n".spec_bytes();
        valid_utf8_concat(c, code_text(m.pattern, 0, 3));
        let d = c + code_text(m.pattern, 0, 3);
        valid_utf8_concat(d, "    body:\n".spec_bytes());
        valid_utf8_concat(d + "    body:\n".spec_bytes(), code_text(m.body, 0, 3));
        assert(valid_utf8(macro_text(m)));
        lemma_macros_text_valid(macros, i + 1);
        valid_utf8_concat(macro_text(m), macros_text(macros, i + 1));
    }
}

/// The listing of a program with well-encoded texts is well encoded.
pub proof fn lemma_ir_text_valid(p: IrView)
    requires
        program_valid(p),
        program_named(p),
    ensures
        valid_utf8(ir_text(p)),
{
    lemma_literal_valid("macros:\n");
    lemma_literal_valid("program:\n");
    assert(macros_valid(p.macros));
    lemma_macros_text_valid(p.macros, 0);
    lemma_code_text_valid(p.instrs, 0, 1);
    let a = "macros:\n".spec_bytes() + macros_text(p.macros, 0);
    valid_utf8_concat("macros:\n".spec_bytes(), macros_text(p.macros, 0));
    valid_utf8_concat(a, "program:\n".spec_bytes());
    valid_utf8_concat(a + "program:\n".spec_bytes(), code_text(p.instrs, 0, 1));
}

/// Well-encoded elements are dumped well encoded.
pub proof fn lemma_items_text_valid(items: Seq<Seq<u8>>, k: int)
    requires
        forall|i: int| 0 <= i < items.len() ==> valid_utf8(#[trigger] items[i]),
    ensures
        valid_utf8(items_text(items, k)),
    decreases items.len() - k,
{
    if 0 <= k < items.len() {
        lemma_items_text_valid(items, k + 1);
        assert(valid_utf8(items[k]));
        if k == 0 {
            valid_utf8_concat(items[k], items_text(items, k + 1));
        } else {
            lemma_literal_valid(", ");
            valid_utf8_concat(", ".spec_bytes(), items[k]);
            valid_utf8_concat(", ".spec_bytes() + items[k], items_text(items, k + 1));
        }
    }
}

/// Well-encoded variables are dumped well encoded.
pub proof fn lemma_variables_text_valid(listing: Seq<(Seq<u8>, Seq<u8>)>, i: int)
    requires
        forall|k: int|
            0 <= k < listing.len() ==> valid_utf8((#[trigger] listing[k]).0) && valid_utf8(
                listing[k].1,
            ),
    ensures
        valid_utf8(variables_text(listing, i)),
    decreases listing.len() - i,
{
    if 0 <= i < listing.len() {
        lemma_variables_text_valid(listing, i + 1);
        assert(valid_utf8(listing[i].0) && valid_utf8(listing[i].1));
        lemma_literal_valid("  ");
        lemma_literal_valid(" = ");
        lemma_literal_valid("\n");
        let a = "  ".spec_bytes() + listing[i].0;
        valid_utf8_concat("  ".spec_bytes(), listing[i].0);
        valid_utf8_concat(a, " = ".spec_bytes());
        let b = a + " = ".spec_bytes();
        valid_utf8_concat(b, listing[i].1);
        let c = b + listing[i].1;
        valid_utf8_concat(c, "\n".spec_bytes());
        valid_utf8_concat(c + "\n".spec_bytes(), variables_text(listing, i + 1));
    }
}

/// Well-encoded arrays are dumped well encoded.
pub proof fn lemma_arrays_text_valid(listing: Seq<(Seq<u8>, Seq<Seq<u8>>)>, i: int)
    requires
        forall|k: int| 0 <= k < listing.len() ==> valid_utf8((#[trigger] listing[k]).0),
        forall|k: int, n: int|
            0 <= k < listing.len() && 0 <= n < listing[k].1.len() ==> valid_utf8(
                #[trigger] listing[k].1[n],
            ),
    ensures
        valid_utf8(arrays_text(listing, i)),
    decreases listing.len() - i,
{
    if 0 <= i < listing.len() {
        lemma_arrays_text_valid(listing, i + 1);
        assert(valid_utf8(listing[i].0));
        assert forall|n: int| 0 <= n < listing[i].1.len() implies valid_utf8(
            #[trigger] listing[i].1[n],
        ) by {}
        lemma_items_text_valid(listing[i].1, 0);
        lemma_literal_valid("  ");
        lemma_literal_valid(" = [");
        lemma_literal_valid("]\n");
        let a = "  ".spec_bytes() + listing[i].0;
        valid_utf8_concat("  ".spec_bytes(), listing[i].0);
        valid_utf8_concat(a, " = [".spec_bytes());
        let b = a + " = [".spec_bytes();
        valid_utf8_concat(b, items_text(listing[i].1, 0));
        let c = b + items_text(listing[i].1, 0);
        valid_utf8_concat(c, "]\n".spec_bytes());
        valid_utf8_concat(c + "]\n".spec_bytes(), arrays_text(listing, i + 1));
    }
}

/// A run keeps a session UTF-8: where the template, the console, and the
/// names and values of the variables and arrays are well encoded, so are
/// the output and the console that the run leaves, whether the template
/// compiles or not and whether the run ends in an error or not.
pub proof fn lemma_session_valid(
    code: Seq<u8>,
    vars: Seq<(Seq<u8>, Seq<u8>)>,
    arrays: Seq<(Seq<u8>, Seq<u8>)>,
    console: Seq<u8>,
)
    requires
        code.len() <= usize::MAX,
        valid_utf8(code),
        valid_utf8(console),
        forall|i: int|
            0 <= i < vars.len() ==> valid_utf8((#[trigger] vars[i]).0) && valid_utf8(vars[i].1),
        forall|i: int|
            0 <= i < arrays.len() ==> valid_utf8((#[trigger] arrays[i]).0) && valid_utf8(arrays[i].1),
    ensures
        valid_utf8(shown_output(code, session_env(vars, arrays))),
        valid_utf8(shown_console(code, vars, arrays, console)),
{
    let env = session_env(vars, arrays);
    lemma_session_env_valid(vars, arrays);
    lemma_literal_valid(LABEL);
    lemma_lex_sound(code, 0, false);
    lemma_nodes_sound(code, lex(code), 0);
    match parse_spec(lex(code)) {
        Err(e) => {
            lemma_syntax_message_valid(e);
            lemma_diagnostic_valid(LABEL.spec_bytes(), code, syntax_diagnostic(e));
        },
        Ok(tree) => {
            let empty = IrView { instrs: Seq::empty(), macros: Seq::empty() };
            lemma_nodes_valid(code, tree, 0, empty);
            match lower(code, tree) {
                Err(e) => {
                    lemma_semantic_report_valid(LABEL.spec_bytes(), code, e);
                },
                Ok(program) => {
                    lemma_execute_valid(program, env);
                    lemma_ir_text_valid(program);
                    let split = split_arrays(arrays);
                    assert forall|k: int, n: int|
                        0 <= k < split.len() && 0 <= n < split[k].1.len() implies valid_utf8(
                        #[trigger] split[k].1[n],
                    ) by {
                        assert(valid_utf8(arrays[k].1));
                        lemma_lines_valid(arrays[k].1, 0);
                        assert(split[k].1 == lines(arrays[k].1));
                    }
                    assert forall|k: int| 0 <= k < split.len() implies valid_utf8(
                        (#[trigger] split[k]).0,
                    ) by {
                        assert(valid_utf8(arrays[k].0));
                    }
                    lemma_variables_text_valid(vars, 0);
                    lemma_arrays_text_valid(split, 0);
                    lemma_literal_valid("variables:\n");
                    lemma_literal_valid("arrays:\n");
                    lemma_literal_valid("\n");
                    let a = "variables:\n".spec_bytes() + variables_text(vars, 0);
                    valid_utf8_concat("variables:\n".spec_bytes(), variables_text(vars, 0));
                    valid_utf8_concat(a, "arrays:\n".spec_bytes());
                    valid_utf8_concat(a + "arrays:\n".spec_bytes(), arrays_text(split, 0));
                    assert(valid_utf8(state_text(vars, split)));
                    valid_utf8_concat(state_text(vars, split), "\n".spec_bytes());
                    valid_utf8_concat(state_text(vars, split) + "\n".spec_bytes(), ir_text(program));
                },
            }
        },
    }
}

} // verus!
