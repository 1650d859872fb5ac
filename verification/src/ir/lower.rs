//! Lowering: from a syntax tree to a program.
//!
//! Each script block is lowered in two passes. The first registers the
//! macros that the block defines, the second lowers its other statements and
//! resolves their macro references against that table, so that a reference
//! may stand before the definition it names.

use vstd::prelude::*;
use vstd::slice::slice_subrange;
use crate::ir::bracket::{brackets_closed, iter_end, lemma_brackets_closed_add};
use crate::ir::instr::{
    instrs_resolved, instrs_view, lemma_instrs_view_add, lemma_instrs_view_push,
    lemma_macros_view_push, lemma_resolved_add, lemma_resolved_grow, macros_view, resolved, Instr, InstrView, IrProgram, IrView, Macro,
    MacroView, SemanticError, SemanticErrorView,
};
use crate::syntax::token::{locate, span_at, span_text, text_of, Span};
use crate::syntax::parser::{lead, leads_rising, tree_rising};
use crate::syntax::tree::{Ast, Expr, Node, NodeView, Statement};
use crate::text::{
    bytes_eq, ident_end, ident_start, is_ident_start, lemma_ident_end_bounds, scan_ident, to_vec,
};

verus! {

/// The name behind a sigil: the text of `span` without its first byte.
pub open spec fn sigil_name(s: Seq<u8>, span: Span) -> Seq<u8> {
    let t = span_text(s, span);
    if t.len() > 0 {
        t.subrange(1, t.len() as int)
    } else {
        t
    }
}

/// The contents of a string literal: the text of `span` without its quotes.
pub open spec fn literal_body(s: Seq<u8>, span: Span) -> Seq<u8> {
    let t = span_text(s, span);
    if t.len() >= 2 {
        t.subrange(1, t.len() - 1)
    } else {
        Seq::empty()
    }
}

/// The offset in `s` at which the contents of a string literal start.
pub open spec fn literal_start(s: Seq<u8>, span: Span) -> int {
    if span_text(s, span).len() >= 2 {
        span.start + 1
    } else {
        0
    }
}

/// Where the interpolation that starts with `$(` at `i` ends: behind the `)`
/// that follows its name. `None` where no name follows, or no `)` follows the
/// name.
pub open spec fn interpolation_end(raw: Seq<u8>, i: int) -> Option<int> {
    let close = ident_end(raw, i + 2);
    if i + 2 < raw.len() && is_ident_start(raw[i + 2]) && close < raw.len() && raw[close] == ')' as u8 {
        Some(close + 1)
    } else {
        None
    }
}

/// The instruction that writes the literal text `pending`, if there is any.
pub open spec fn flush(pending: Seq<u8>) -> Seq<InstrView> {
    if pending.len() == 0 {
        Seq::empty()
    } else {
        seq![InstrView::EmitLiteral { text: pending }]
    }
}

/// The instructions for the contents `raw` of a string literal from `i` on,
/// with `pending` the literal text read since the last interpolation. The
/// escape `\"` stands for a quote, `$(name)` for the value of `name`, and
/// every other byte for itself. The error is the offset of a malformed `$(`.
pub open spec fn pieces(raw: Seq<u8>, i: int, pending: Seq<u8>) -> Result<Seq<InstrView>, int>
    decreases raw.len() - i,
{
    if i < 0 || i >= raw.len() {
        Ok(flush(pending))
    } else if raw[i] == '\\' as u8 && i + 1 < raw.len() && raw[i + 1] == '"' as u8 {
        pieces(raw, i + 2, pending.push('"' as u8))
    } else if raw[i] == '$' as u8 && i + 1 < raw.len() && raw[i + 1] == '(' as u8 {
        match interpolation_end(raw, i) {
            None => Err(i),
            Some(next) => {
                proof {
                    lemma_ident_end_bounds(raw, i + 2);
                }
                match pieces(raw, next, Seq::empty()) {
                    Err(at) => Err(at),
                    Ok(rest) => Ok(
                        flush(pending) + seq![
                            InstrView::EmitVar { name: raw.subrange(i + 2, next - 1) },
                        ] + rest,
                    ),
                }
            },
        }
    } else {
        pieces(raw, i + 1, pending.push(raw[i]))
    }
}

/// `r` with `prefix` before its instructions.
pub open spec fn pieces_after(prefix: Seq<InstrView>, r: Result<Seq<InstrView>, int>) -> Result<
    Seq<InstrView>,
    int,
> {
    match r {
        Ok(rest) => Ok(prefix + rest),
        Err(at) => Err(at),
    }
}

/// The instructions that write the value of an expression.
pub open spec fn lower_expr(s: Seq<u8>, e: Expr) -> Result<Seq<InstrView>, SemanticErrorView> {
    match e {
        Expr::VarRef { span } => Ok(seq![InstrView::EmitVar { name: span_text(s, span) }]),
        Expr::StringLiteral { span } => match pieces(literal_body(s, span), 0, Seq::empty()) {
            Ok(instrs) => Ok(instrs),
            Err(at) => Err(
                SemanticErrorView::MalformedInterpolation {
                    span: span_at(s, literal_start(s, span) + at, literal_start(s, span) + at + 2),
                },
            ),
        },
    }
}

/// The first entry of `macros` at or after `from` that is called `name`.
pub open spec fn find_macro(macros: Seq<MacroView>, name: Seq<u8>, from: int) -> Option<int>
    decreases macros.len() - from,
{
    if from < 0 || from >= macros.len() {
        None
    } else if macros[from].name == name {
        Some(from)
    } else {
        find_macro(macros, name, from + 1)
    }
}

/// What `find_macro` finds is an entry of that name at or after `from`, and
/// where it finds none there is none.
pub proof fn lemma_find_macro(macros: Seq<MacroView>, name: Seq<u8>, from: int)
    requires
        0 <= from,
    ensures
        match find_macro(macros, name, from) {
            Some(j) => from <= j < macros.len() && macros[j].name == name,
            None => forall|j: int| from <= j < macros.len() ==> (#[trigger] macros[j]).name != name,
        },
    decreases macros.len() - from,
{
    if from < macros.len() && macros[from].name != name {
        lemma_find_macro(macros, name, from + 1);
    }
}

/// The macro table after the definitions among `statements[i..]` have been
/// added to `macros`, whose entries from `base` on belong to the same block.
pub open spec fn collect(
    s: Seq<u8>,
    statements: Seq<Statement>,
    i: int,
    macros: Seq<MacroView>,
    base: int,
) -> Result<Seq<MacroView>, SemanticErrorView>
    decreases statements.len() - i,
{
    if i < 0 || i >= statements.len() {
        Ok(macros)
    } else {
        match statements[i] {
            Statement::MacroDef { name, pattern, body } => {
                let text = sigil_name(s, name);
                match find_macro(macros, text, base) {
                    Some(first) => Err(
                        SemanticErrorView::DuplicateMacro {
                            name: text,
                            first_span: macros[first].span,
                            dup_span: name,
                        },
                    ),
                    None => match lower_expr(s, pattern) {
                        Err(e) => Err(e),
                        Ok(p) => match lower_expr(s, body) {
                            Err(e) => Err(e),
                            Ok(b) => collect(
                                s,
                                statements,
                                i + 1,
                                macros.push(MacroView { name: text, pattern: p, body: b, span: name }),
                                base,
                            ),
                        },
                    },
                }
            },
            _ => collect(s, statements, i + 1, macros, base),
        }
    }
}

/// The instructions of one statement, given the macro table of its block.
pub open spec fn lower_statement(
    s: Seq<u8>,
    statement: Statement,
    macros: Seq<MacroView>,
    base: int,
) -> Result<Seq<InstrView>, SemanticErrorView> {
    match statement {
        Statement::Comment { span } => Ok(Seq::empty()),
        Statement::MacroDef { name, pattern, body } => Ok(Seq::empty()),
        Statement::Expression { expr } => lower_expr(s, expr),
        Statement::ArraySelect { array } => Ok(
            seq![InstrView::BeginArrayIter { array: span_text(s, array) }, InstrView::EndArrayIter],
        ),
        Statement::PipeChain { array, target } => {
            let name = sigil_name(s, target);
            match find_macro(macros, name, base) {
                None => Err(SemanticErrorView::UnknownMacro { name, span: target }),
                Some(index) => Ok(
                    seq![
                        InstrView::BeginArrayIter { array: span_text(s, array) },
                        InstrView::BeginMacroCall { name, index: index as usize },
                        InstrView::EndMacroCall,
                        InstrView::EndArrayIter,
                    ],
                ),
            }
        },
    }
}

/// The instructions of `statements[i..]`, in source order.
pub open spec fn lower_statements(
    s: Seq<u8>,
    statements: Seq<Statement>,
    i: int,
    macros: Seq<MacroView>,
    base: int,
) -> Result<Seq<InstrView>, SemanticErrorView>
    decreases statements.len() - i,
{
    if i < 0 || i >= statements.len() {
        Ok(Seq::empty())
    } else {
        match lower_statement(s, statements[i], macros, base) {
            Err(e) => Err(e),
            Ok(first) => match lower_statements(s, statements, i + 1, macros, base) {
                Err(e) => Err(e),
                Ok(rest) => Ok(first + rest),
            },
        }
    }
}

/// `program` with one script block lowered behind it.
pub open spec fn lower_block(s: Seq<u8>, statements: Seq<Statement>, program: IrView) -> Result<
    IrView,
    SemanticErrorView,
> {
    let base = program.macros.len() as int;
    match collect(s, statements, 0, program.macros, base) {
        Err(e) => Err(e),
        Ok(macros) => match lower_statements(s, statements, 0, macros, base) {
            Err(e) => Err(e),
            Ok(instrs) => Ok(IrView { instrs: program.instrs + instrs, macros }),
        },
    }
}

/// `program` with `nodes[i..]` lowered behind it.
pub open spec fn lower_nodes(s: Seq<u8>, nodes: Seq<NodeView>, i: int, program: IrView) -> Result<
    IrView,
    SemanticErrorView,
>
    decreases nodes.len() - i,
{
    if i < 0 || i >= nodes.len() {
        Ok(program)
    } else {
        match nodes[i] {
            NodeView::HostText { span } => lower_nodes(
                s,
                nodes,
                i + 1,
                IrView {
                    instrs: program.instrs.push(InstrView::EmitLiteral { text: span_text(s, span) }),
                    macros: program.macros,
                },
            ),
            NodeView::ScriptBlock { statements } => match lower_block(s, statements, program) {
                Err(e) => Err(e),
                Ok(next) => lower_nodes(s, nodes, i + 1, next),
            },
        }
    }
}

/// The program of a syntax tree over the source `s`, or the first semantic
/// error in source order, definitions of a block before its other statements.
pub open spec fn lower(s: Seq<u8>, nodes: Seq<NodeView>) -> Result<IrView, SemanticErrorView> {
    lower_nodes(s, nodes, 0, IrView { instrs: Seq::empty(), macros: Seq::empty() })
}

/// The mathematical value of a lowered fragment or its error.
pub open spec fn fragment_view(r: Result<Vec<Instr>, SemanticError>) -> Result<
    Seq<InstrView>,
    SemanticErrorView,
> {
    match r {
        Ok(instrs) => Ok(instrs_view(instrs@)),
        Err(e) => Err(e@),
    }
}

/// The mathematical value of what `gen_ir` returns.
pub open spec fn lowered_view(r: Result<IrProgram, SemanticError>) -> Result<
    IrView,
    SemanticErrorView,
> {
    match r {
        Ok(program) => Ok(program@),
        Err(e) => Err(e@),
    }
}

fn lower_text(raw: &[u8]) -> (r: Result<Vec<Instr>, usize>)
    ensures
        match r {
            Ok(instrs) => pieces(raw@, 0, Seq::empty()) == Ok::<_, int>(instrs_view(instrs@)),
            Err(at) => pieces(raw@, 0, Seq::empty()) == Err::<Seq<InstrView>, _>(at as int) && at
                + 2 <= raw@.len(),
        },
{
    let mut out: Vec<Instr> = Vec::new();
    let mut pending: Vec<u8> = Vec::new();
    let mut i: usize = 0;
    assert(instrs_view(out@) + flush(pending@) =~= flush(pending@));
    assert(instrs_view(out@) =~= Seq::<InstrView>::empty());
    while i < raw.len()
        invariant
            i <= raw@.len(),
            pieces(raw@, 0, Seq::empty()) == pieces_after(
                instrs_view(out@),
                pieces(raw@, i as int, pending@),
            ),
        decreases raw@.len() - i,
    {
        let b = raw[i];
        let more = raw.len() - i > 1;
        if b == '\\' as u8 && more && raw[i + 1] == '"' as u8 {
            pending.push('"' as u8);
            i += 2;
        } else if b == '$' as u8 && more && raw[i + 1] == '(' as u8 {
            let start = i + 2;
            if !(start < raw.len() && ident_start(raw[start])) {
                return Err(i);
            }
            let close = scan_ident(raw, start);
            if !(close < raw.len() && raw[close] == ')' as u8) {
                return Err(i);
            }
            let ghost before = instrs_view(out@);
            let ghost text = pending@;
            if pending.len() > 0 {
                let literal = Instr::EmitLiteral { text: pending };
                proof {
                    lemma_instrs_view_push(out@, literal);
                }
                out.push(literal);
                pending = Vec::new();
            }
            assert(pending@ =~= Seq::<u8>::empty());
            assert(instrs_view(out@) =~= before + flush(text));
            let var = Instr::EmitVar { name: to_vec(slice_subrange(raw, start, close)) };
            proof {
                lemma_instrs_view_push(out@, var);
                match pieces(raw@, close + 1, Seq::empty()) {
                    Ok(rest) => {
                        assert(before + (flush(text) + seq![var@] + rest) =~= (before + flush(
                            text,
                        )).push(var@) + rest);
                    },
                    Err(at) => {},
                }
            }
            out.push(var);
            i = close + 1;
        } else {
            pending.push(b);
            i += 1;
        }
    }
    let ghost before = instrs_view(out@);
    let ghost text = pending@;
    if pending.len() > 0 {
        let literal = Instr::EmitLiteral { text: pending };
        proof {
            lemma_instrs_view_push(out@, literal);
        }
        out.push(literal);
    }
    assert(instrs_view(out@) =~= before + flush(text));
    Ok(out)
}

fn lower_expr_exec(source: &[u8], e: Expr) -> (r: Result<Vec<Instr>, SemanticError>)
    ensures
        fragment_view(r) == lower_expr(source@, e),
{
    match e {
        Expr::VarRef { span } => {
            let var = Instr::EmitVar { name: to_vec(text_of(source, span)) };
            let mut out: Vec<Instr> = Vec::new();
            out.push(var);
            assert(instrs_view(out@) =~= seq![var@]);
            Ok(out)
        },
        Expr::StringLiteral { span } => {
            let t = text_of(source, span);
            if t.len() >= 2 {
                let raw = slice_subrange(t, 1, t.len() - 1);
                match lower_text(raw) {
                    Ok(out) => Ok(out),
                    Err(at) => {
                        let start = span.start + 1 + at;
                        Err(SemanticError::MalformedInterpolation { span: locate(source, start, start + 2) })
                    },
                }
            } else {
                let out: Vec<Instr> = Vec::new();
                assert(instrs_view(out@) =~= Seq::<InstrView>::empty());
                Ok(out)
            }
        },
    }
}

fn find_macro_exec(macros: &Vec<Macro>, name: &[u8], from: usize) -> (r: Option<usize>)
    ensures
        match r {
            Some(j) => find_macro(macros_view(macros@), name@, from as int) == Some(j as int) && from
                <= j < macros@.len() && macros@[j as int].name@ == name@,
            None => find_macro(macros_view(macros@), name@, from as int) == None::<int>,
        },
{
    let mut j: usize = from;
    while j < macros.len()
        invariant
            from <= j,
            find_macro(macros_view(macros@), name@, from as int) == find_macro(
                macros_view(macros@),
                name@,
                j as int,
            ),
        decreases macros@.len() - j,
    {
        if bytes_eq(macros[j].name.as_slice(), name) {
            return Some(j);
        }
        j += 1;
    }
    None
}

fn sigil_name_exec(source: &[u8], span: Span) -> (r: &[u8])
    ensures
        r@ == sigil_name(source@, span),
{
    let t = text_of(source, span);
    if t.len() > 0 {
        slice_subrange(t, 1, t.len())
    } else {
        t
    }
}

/// Adds the macros that `statements` define to `macros`.
fn collect_exec(source: &[u8], statements: &Vec<Statement>, macros: &mut Vec<Macro>, base: usize) -> (r:
    Result<(), SemanticError>)
    requires
        base <= old(macros)@.len(),
    ensures
        match r {
            Ok(()) => collect(source@, statements@, 0, macros_view(old(macros)@), base as int) == Ok::<
                _,
                SemanticErrorView,
            >(macros_view(final(macros)@)) && old(macros)@.len() <= final(macros)@.len()
                && macros_view(final(macros)@).subrange(0, old(macros)@.len() as int) == macros_view(
                old(macros)@,
            ),
            Err(e) => collect(source@, statements@, 0, macros_view(old(macros)@), base as int) == Err::<
                Seq<MacroView>,
                _,
            >(e@),
        },
{
    let mut i: usize = 0;
    assert(macros_view(macros@).subrange(0, macros@.len() as int) =~= macros_view(macros@));
    while i < statements.len()
        invariant
            i <= statements@.len(),
            base <= old(macros)@.len() <= macros@.len(),
            macros_view(macros@).subrange(0, old(macros)@.len() as int) == macros_view(old(macros)@),
            collect(source@, statements@, 0, macros_view(old(macros)@), base as int) == collect(
                source@,
                statements@,
                i as int,
                macros_view(macros@),
                base as int,
            ),
        decreases statements@.len() - i,
    {
        match statements[i] {
            Statement::MacroDef { name, pattern, body } => {
                let text = sigil_name_exec(source, name);
                match find_macro_exec(macros, text, base) {
                    Some(first) => {
                        return Err(
                            SemanticError::DuplicateMacro {
                                name: to_vec(text),
                                first_span: macros[first].span,
                                dup_span: name,
                            },
                        );
                    },
                    None => {},
                }
                let p = match lower_expr_exec(source, pattern) {
                    Ok(instrs) => instrs,
                    Err(e) => {
                        return Err(e);
                    },
                };
                let b = match lower_expr_exec(source, body) {
                    Ok(instrs) => instrs,
                    Err(e) => {
                        return Err(e);
                    },
                };
                let entry = Macro { name: to_vec(text), pattern: p, body: b, span: name };
                proof {
                    lemma_macros_view_push(macros@, entry);
                    assert(macros_view(macros@.push(entry)).subrange(0, old(macros)@.len() as int)
                        =~= macros_view(macros@).subrange(0, old(macros)@.len() as int));
                }
                macros.push(entry);
            },
            _ => {},
        }
        i += 1;
    }
    Ok(())
}

fn lower_statement_exec(source: &[u8], statement: Statement, macros: &Vec<Macro>, base: usize) -> (r:
    Result<Vec<Instr>, SemanticError>)
    ensures
        fragment_view(r) == lower_statement(source@, statement, macros_view(macros@), base as int),
        r is Ok ==> instrs_resolved(instrs_view(r->Ok_0@), macros_view(macros@)),
{
    let mut out: Vec<Instr> = Vec::new();
    match statement {
        Statement::Comment { span } => {
            assert(instrs_view(out@) =~= Seq::<InstrView>::empty());
            Ok(out)
        },
        Statement::MacroDef { name, pattern, body } => {
            assert(instrs_view(out@) =~= Seq::<InstrView>::empty());
            Ok(out)
        },
        Statement::Expression { expr } => {
            let r = lower_expr_exec(source, expr);
            proof {
                lemma_expr_resolved(source@, expr, macros_view(macros@));
            }
            r
        },
        Statement::ArraySelect { array } => {
            let begin = Instr::BeginArrayIter { array: to_vec(text_of(source, array)) };
            let end = Instr::EndArrayIter;
            out.push(begin);
            out.push(end);
            assert(instrs_view(out@) =~= seq![begin@, end@]);
            Ok(out)
        },
        Statement::PipeChain { array, target } => {
            let name = sigil_name_exec(source, target);
            match find_macro_exec(macros, name, base) {
                None => Err(SemanticError::UnknownMacro { name: to_vec(name), span: target }),
                Some(index) => {
                    let begin = Instr::BeginArrayIter { array: to_vec(text_of(source, array)) };
                    let call = Instr::BeginMacroCall { name: to_vec(name), index };
                    let done = Instr::EndMacroCall;
                    let end = Instr::EndArrayIter;
                    out.push(begin);
                    out.push(call);
                    out.push(done);
                    out.push(end);
                    assert(instrs_view(out@) =~= seq![begin@, call@, done@, end@]);
                    assert(macros_view(macros@)[index as int].name == name@);
                    assert(resolved(call@, macros_view(macros@)));
                    Ok(out)
                },
            }
        },
    }
}

/// `r` with `prefix` before its instructions.
pub open spec fn fragment_after(
    prefix: Seq<InstrView>,
    r: Result<Seq<InstrView>, SemanticErrorView>,
) -> Result<Seq<InstrView>, SemanticErrorView> {
    match r {
        Ok(rest) => Ok(prefix + rest),
        Err(e) => Err(e),
    }
}

/// Lowers `statements` behind `out`.
fn lower_statements_exec(
    source: &[u8],
    statements: &Vec<Statement>,
    macros: &Vec<Macro>,
    base: usize,
    out: &mut Vec<Instr>,
) -> (r: Result<(), SemanticError>)
    requires
        instrs_resolved(instrs_view(old(out)@), macros_view(macros@)),
    ensures
        match r {
            Ok(()) => {
                &&& lower_statements(source@, statements@, 0, macros_view(macros@), base as int) is Ok
                &&& instrs_view(final(out)@) == instrs_view(old(out)@) + lower_statements(
                    source@,
                    statements@,
                    0,
                    macros_view(macros@),
                    base as int,
                )->Ok_0
                &&& instrs_resolved(instrs_view(final(out)@), macros_view(macros@))
            },
            Err(e) => lower_statements(source@, statements@, 0, macros_view(macros@), base as int)
                == Err::<Seq<InstrView>, _>(e@),
        },
{
    let mut i: usize = 0;
    let ghost mut added: Seq<InstrView> = Seq::empty();
    let ghost table = macros_view(macros@);
    assert(instrs_view(out@) + added =~= instrs_view(out@));
    while i < statements.len()
        invariant
            i <= statements@.len(),
            table == macros_view(macros@),
            instrs_view(out@) == instrs_view(old(out)@) + added,
            instrs_resolved(instrs_view(out@), table),
            lower_statements(source@, statements@, 0, table, base as int) == fragment_after(
                added,
                lower_statements(source@, statements@, i as int, table, base as int),
            ),
        decreases statements@.len() - i,
    {
        match lower_statement_exec(source, statements[i], macros, base) {
            Err(e) => {
                return Err(e);
            },
            Ok(fragment) => {
                let mut fragment = fragment;
                let ghost piece = instrs_view(fragment@);
                let ghost before = out@;
                proof {
                    lemma_instrs_view_add(out@, fragment@);
                    lemma_resolved_add(instrs_view(out@), piece, table);
                    match lower_statements(source@, statements@, i + 1, table, base as int) {
                        Ok(rest) => {
                            assert(added + (piece + rest) =~= (added + piece) + rest);
                        },
                        Err(e) => {},
                    }
                    assert((instrs_view(old(out)@) + added) + piece =~= instrs_view(old(out)@) + (added
                        + piece));
                }
                out.append(&mut fragment);
                proof {
                    added = added + piece;
                }
            },
        }
        i += 1;
    }
    assert(added + Seq::<InstrView>::empty() =~= added);
    Ok(())
}

/// Lowers a syntax tree over `source` to a program. Each block's macro
/// references are resolved here, once, against the macros that the same
/// block defines. Whether a variable or an array exists is not looked at:
/// that is only known when the program runs.
pub fn gen_ir(source: &[u8], tree: Ast) -> (r: Result<IrProgram, SemanticError>)
    ensures
        lowered_view(r) == lower(source@, tree@),
        r is Ok ==> r->Ok_0.wf(),
        r is Ok ==> brackets_closed(r->Ok_0@.instrs, 0, r->Ok_0@.instrs.len() as int),
{
    proof {
        lemma_lowered_closed(source@, tree@);
    }
    let mut instrs: Vec<Instr> = Vec::new();
    let mut macros: Vec<Macro> = Vec::new();
    let mut i: usize = 0;
    assert(instrs_view(instrs@) =~= Seq::<InstrView>::empty());
    assert(macros_view(macros@) =~= Seq::<MacroView>::empty());
    while i < tree.nodes.len()
        invariant
            i <= tree.nodes@.len(),
            instrs_resolved(instrs_view(instrs@), macros_view(macros@)),
            lower(source@, tree@) == lower_nodes(
                source@,
                tree@,
                i as int,
                IrView { instrs: instrs_view(instrs@), macros: macros_view(macros@) },
            ),
        decreases tree.nodes@.len() - i,
    {
        assert(tree@[i as int] == tree.nodes@[i as int]@);
        match &tree.nodes[i] {
            Node::HostText { span } => {
                let literal = Instr::EmitLiteral { text: to_vec(text_of(source, *span)) };
                proof {
                    lemma_instrs_view_push(instrs@, literal);
                }
                instrs.push(literal);
            },
            Node::ScriptBlock { statements } => {
                let base = macros.len();
                let ghost old_table = macros_view(macros@);
                match collect_exec(source, statements, &mut macros, base) {
                    Err(e) => {
                        return Err(e);
                    },
                    Ok(()) => {},
                }
                proof {
                    lemma_resolved_grow(instrs_view(instrs@), old_table, macros_view(macros@));
                }
                match lower_statements_exec(source, statements, &macros, base, &mut instrs) {
                    Err(e) => {
                        return Err(e);
                    },
                    Ok(()) => {},
                }
            },
        }
        i += 1;
    }
    Ok(IrProgram { instrs, macros })
}

/// The instructions of a string literal's contents call no macro.
pub proof fn lemma_pieces_resolved(raw: Seq<u8>, i: int, pending: Seq<u8>, macros: Seq<MacroView>)
    ensures
        pieces(raw, i, pending) is Ok ==> instrs_resolved(pieces(raw, i, pending)->Ok_0, macros),
    decreases raw.len() - i,
{
    if i < 0 || i >= raw.len() {
    } else if raw[i] == '\\' as u8 && i + 1 < raw.len() && raw[i + 1] == '"' as u8 {
        lemma_pieces_resolved(raw, i + 2, pending.push('"' as u8), macros);
    } else if raw[i] == '$' as u8 && i + 1 < raw.len() && raw[i + 1] == '(' as u8 {
        match interpolation_end(raw, i) {
            None => {},
            Some(next) => {
                lemma_ident_end_bounds(raw, i + 2);
                lemma_pieces_resolved(raw, next, Seq::empty(), macros);
                match pieces(raw, next, Seq::empty()) {
                    Ok(rest) => {
                        let var = seq![InstrView::EmitVar { name: raw.subrange(i + 2, next - 1) }];
                        lemma_resolved_add(flush(pending), var, macros);
                        lemma_resolved_add(flush(pending) + var, rest, macros);
                    },
                    Err(at) => {},
                }
            },
        }
    } else {
        lemma_pieces_resolved(raw, i + 1, pending.push(raw[i]), macros);
    }
}

/// The instructions of an expression call no macro.
pub proof fn lemma_expr_resolved(s: Seq<u8>, e: Expr, macros: Seq<MacroView>)
    ensures
        lower_expr(s, e) is Ok ==> instrs_resolved(lower_expr(s, e)->Ok_0, macros),
{
    match e {
        Expr::VarRef { span } => {},
        Expr::StringLiteral { span } => {
            lemma_pieces_resolved(literal_body(s, span), 0, Seq::empty(), macros);
        },
    }
}

/// Whether no instruction of `instrs` opens an array bracket.
pub open spec fn plain(instrs: Seq<InstrView>) -> bool {
    forall|k: int| 0 <= k < instrs.len() ==> !((#[trigger] instrs[k]) is BeginArrayIter)
}

/// The instructions of a string literal's contents open no bracket.
pub proof fn lemma_pieces_plain(raw: Seq<u8>, i: int, pending: Seq<u8>)
    ensures
        pieces(raw, i, pending) is Ok ==> plain(pieces(raw, i, pending)->Ok_0),
    decreases raw.len() - i,
{
    if i < 0 || i >= raw.len() {
    } else if raw[i] == '\\' as u8 && i + 1 < raw.len() && raw[i + 1] == '"' as u8 {
        lemma_pieces_plain(raw, i + 2, pending.push('"' as u8));
    } else if raw[i] == '$' as u8 && i + 1 < raw.len() && raw[i + 1] == '(' as u8 {
        match interpolation_end(raw, i) {
            None => {},
            Some(next) => {
                lemma_ident_end_bounds(raw, i + 2);
                lemma_pieces_plain(raw, next, Seq::empty());
                match pieces(raw, next, Seq::empty()) {
                    Ok(rest) => {
                        let head = flush(pending) + seq![
                            InstrView::EmitVar { name: raw.subrange(i + 2, next - 1) },
                        ];
                        let all = head + rest;
                        assert forall|k: int| 0 <= k < all.len() implies !((#[trigger] all[k])
                            is BeginArrayIter) by {
                            if k >= head.len() {
                                assert(all[k] == rest[k - head.len()]);
                            }
                        }
                    },
                    Err(at) => {},
                }
            },
        }
    } else {
        lemma_pieces_plain(raw, i + 1, pending.push(raw[i]));
    }
}

/// The brackets of the instructions of one statement are closed.
pub proof fn lemma_statement_closed(s: Seq<u8>, statement: Statement, macros: Seq<MacroView>, base: int)
    ensures
        match lower_statement(s, statement, macros, base) {
            Ok(instrs) => brackets_closed(instrs, 0, instrs.len() as int),
            Err(e) => true,
        },
{
    match lower_statement(s, statement, macros, base) {
        Err(e) => {},
        Ok(instrs) => {
            match statement {
                Statement::Expression { expr } => {
                    match expr {
                        Expr::StringLiteral { span } => {
                            lemma_pieces_plain(literal_body(s, span), 0, Seq::empty());
                        },
                        Expr::VarRef { span } => {},
                    }
                    assert(plain(instrs));
                },
                Statement::ArraySelect { array } => {
                    assert(iter_end(instrs, 1, 2, 0) == 1);
                },
                Statement::PipeChain { array, target } => {
                    assert(iter_end(instrs, 3, 4, 0) == 3);
                    assert(iter_end(instrs, 2, 4, 0) == 3);
                    assert(iter_end(instrs, 1, 4, 0) == 3);
                },
                _ => {},
            }
        },
    }
}

/// The brackets of the instructions of a block are closed.
pub proof fn lemma_statements_closed(
    s: Seq<u8>,
    statements: Seq<Statement>,
    i: int,
    macros: Seq<MacroView>,
    base: int,
)
    ensures
        match lower_statements(s, statements, i, macros, base) {
            Ok(instrs) => brackets_closed(instrs, 0, instrs.len() as int),
            Err(e) => true,
        },
    decreases statements.len() - i,
{
    if 0 <= i < statements.len() {
        lemma_statement_closed(s, statements[i], macros, base);
        lemma_statements_closed(s, statements, i + 1, macros, base);
        match lower_statement(s, statements[i], macros, base) {
            Err(e) => {},
            Ok(first) => match lower_statements(s, statements, i + 1, macros, base) {
                Err(e) => {},
                Ok(rest) => {
                    lemma_brackets_closed_add(first, rest);
                },
            },
        }
    }
}

/// Lowering leaves the brackets of a program closed.
pub proof fn lemma_nodes_closed(s: Seq<u8>, nodes: Seq<NodeView>, i: int, program: IrView)
    requires
        brackets_closed(program.instrs, 0, program.instrs.len() as int),
    ensures
        match lower_nodes(s, nodes, i, program) {
            Ok(next) => brackets_closed(next.instrs, 0, next.instrs.len() as int),
            Err(e) => true,
        },
    decreases nodes.len() - i,
{
    if 0 <= i < nodes.len() {
        match nodes[i] {
            NodeView::HostText { span } => {
                let literal = seq![InstrView::EmitLiteral { text: span_text(s, span) }];
                assert(plain(literal));
                lemma_brackets_closed_add(program.instrs, literal);
                assert(program.instrs + literal =~= program.instrs.push(literal[0]));
                lemma_nodes_closed(
                    s,
                    nodes,
                    i + 1,
                    IrView { instrs: program.instrs.push(literal[0]), macros: program.macros },
                );
            },
            NodeView::ScriptBlock { statements } => {
                let base = program.macros.len() as int;
                match collect(s, statements, 0, program.macros, base) {
                    Err(e) => {},
                    Ok(macros) => {
                        lemma_statements_closed(s, statements, 0, macros, base);
                        match lower_statements(s, statements, 0, macros, base) {
                            Err(e) => {},
                            Ok(instrs) => {
                                lemma_brackets_closed_add(program.instrs, instrs);
                                lemma_nodes_closed(
                                    s,
                                    nodes,
                                    i + 1,
                                    IrView { instrs: program.instrs + instrs, macros },
                                );
                            },
                        }
                    },
                }
            },
        }
    }
}

/// Every array bracket that a lowered program opens, it closes.
pub proof fn lemma_lowered_closed(s: Seq<u8>, tree: Seq<NodeView>)
    ensures
        match lower(s, tree) {
            Ok(program) => brackets_closed(program.instrs, 0, program.instrs.len() as int),
            Err(e) => true,
        },
{
    lemma_nodes_closed(s, tree, 0, IrView { instrs: Seq::empty(), macros: Seq::empty() });
}

/// Whether `statement` defines a macro called `name`.
pub open spec fn defines(s: Seq<u8>, statement: Statement, name: Seq<u8>) -> bool {
    match statement {
        Statement::MacroDef { name: span, pattern, body } => sigil_name(s, span) == name,
        _ => false,
    }
}

/// Whether `entry` was registered for one of the definitions among
/// `statements[..n]`.
pub open spec fn registered(s: Seq<u8>, statements: Seq<Statement>, n: int, entry: MacroView) -> bool {
    exists|j: int|
        0 <= j < n && j < statements.len() && defines(s, #[trigger] statements[j], entry.name)
            && statements[j]->MacroDef_name == entry.span
}

/// Whether every entry of `macros` from `base` on was registered for one of
/// the definitions among `statements[..n]`.
pub open spec fn all_registered(
    s: Seq<u8>,
    statements: Seq<Statement>,
    n: int,
    macros: Seq<MacroView>,
    base: int,
) -> bool {
    forall|k: int| base <= k < macros.len() ==> registered(s, statements, n, #[trigger] macros[k])
}

/// What the first pass leaves in the table of a block comes from the
/// definitions of that block, and every definition of the block is in it. A
/// `DuplicateMacro` names two definitions of one name in the block.
pub proof fn lemma_collect(
    s: Seq<u8>,
    statements: Seq<Statement>,
    i: int,
    macros: Seq<MacroView>,
    base: int,
)
    requires
        0 <= i <= statements.len(),
        0 <= base <= macros.len(),
        all_registered(s, statements, i, macros, base),
    ensures
        match collect(s, statements, i, macros, base) {
            Ok(table) => {
                &&& macros.len() <= table.len()
                &&& table.subrange(0, macros.len() as int) == macros
                &&& all_registered(s, statements, statements.len() as int, table, base)
                &&& forall|j: int, name: Seq<u8>|
                    i <= j < statements.len() && #[trigger] defines(s, statements[j], name)
                        ==> find_macro(table, name, base) is Some
                &&& forall|name: Seq<u8>|
                    find_macro(macros, name, base) is Some ==> #[trigger] find_macro(table, name, base)
                        is Some
            },
            Err(SemanticErrorView::DuplicateMacro { name, first_span, dup_span }) => {
                exists|a: int, b: int|
                    0 <= a < b < statements.len() && defines(s, #[trigger] statements[a], name)
                        && defines(s, #[trigger] statements[b], name) && statements[a]->MacroDef_name
                        == first_span && statements[b]->MacroDef_name == dup_span
            },
            Err(SemanticErrorView::MalformedInterpolation { span }) => true,
            Err(SemanticErrorView::UnknownMacro { name, span }) => false,
        },
    decreases statements.len() - i,
{
    if i >= statements.len() {
        assert(macros.subrange(0, macros.len() as int) =~= macros);
    } else {
        match statements[i] {
            Statement::MacroDef { name, pattern, body } => {
                let text = sigil_name(s, name);
                lemma_find_macro(macros, text, base);
                match find_macro(macros, text, base) {
                    Some(first) => {
                        assert(registered(s, statements, i, macros[first]));
                        let a = choose|j: int|
                            0 <= j < i && j < statements.len() && defines(
                                s,
                                #[trigger] statements[j],
                                macros[first].name,
                            ) && statements[j]->MacroDef_name == macros[first].span;
                        assert(defines(s, statements[a], text) && defines(s, statements[i], text));
                    },
                    None => {
                        lemma_expr_shape(s, pattern);
                        lemma_expr_shape(s, body);
                        match lower_expr(s, pattern) {
                            Err(e) => {},
                            Ok(p) => match lower_expr(s, body) {
                                Err(e) => {},
                                Ok(b) => {
                                    let entry = MacroView { name: text, pattern: p, body: b, span: name };
                                    let next = macros.push(entry);
                                    assert forall|k: int| base <= k < next.len() implies registered(
                                        s,
                                        statements,
                                        i + 1,
                                        #[trigger] next[k],
                                    ) by {
                                        if k < macros.len() {
                                            assert(registered(s, statements, i, macros[k]));
                                            let j = choose|j: int|
                                                0 <= j < i && j < statements.len() && defines(
                                                    s,
                                                    #[trigger] statements[j],
                                                    macros[k].name,
                                                ) && statements[j]->MacroDef_name == macros[k].span;
                                            assert(defines(s, statements[j], next[k].name));
                                        } else {
                                            assert(defines(s, statements[i], entry.name));
                                        }
                                    }
                                    lemma_collect(s, statements, i + 1, next, base);
                                    let table = collect(s, statements, i + 1, next, base);
                                    if table is Ok {
                                        let t = table->Ok_0;
                                        assert(t.subrange(0, macros.len() as int) =~= next.subrange(
                                            0,
                                            macros.len() as int,
                                        ));
                                        assert(next.subrange(0, macros.len() as int) =~= macros);
                                        lemma_find_macro_push(macros, entry, text, base);
                                        assert forall|n: Seq<u8>|
                                            find_macro(macros, n, base) is Some implies #[trigger] find_macro(
                                            t,
                                            n,
                                            base,
                                        ) is Some by {
                                            lemma_find_macro_push(macros, entry, n, base);
                                        }
                                    }
                                },
                            },
                        }
                    },
                }
            },
            _ => {
                assert forall|k: int| base <= k < macros.len() implies registered(
                    s,
                    statements,
                    i + 1,
                    #[trigger] macros[k],
                ) by {
                    assert(registered(s, statements, i, macros[k]));
                    let j = choose|j: int|
                        0 <= j < i && j < statements.len() && defines(
                            s,
                            #[trigger] statements[j],
                            macros[k].name,
                        ) && statements[j]->MacroDef_name == macros[k].span;
                    assert(defines(s, statements[j], macros[k].name));
                }
                lemma_collect(s, statements, i + 1, macros, base);
            },
        }
    }
}

/// A name that is found in a table is found after one more entry is added,
/// and the name of the added entry is found too.
pub proof fn lemma_find_macro_push(macros: Seq<MacroView>, entry: MacroView, name: Seq<u8>, base: int)
    requires
        0 <= base <= macros.len(),
    ensures
        find_macro(macros, name, base) is Some ==> find_macro(macros.push(entry), name, base) is Some,
        entry.name == name ==> find_macro(macros.push(entry), name, base) is Some,
    decreases macros.len() - base,
{
    let next = macros.push(entry);
    if base < macros.len() {
        assert(next[base] == macros[base]);
        if macros[base].name != name {
            lemma_find_macro_push(macros, entry, name, base + 1);
        }
    } else {
        assert(next[base] == entry);
        if entry.name != name {
            assert(find_macro(next, name, base + 1) is None);
        }
    }
}

/// Lowering an expression fails only with `MalformedInterpolation`.
pub proof fn lemma_expr_shape(s: Seq<u8>, e: Expr)
    ensures
        lower_expr(s, e) is Err ==> lower_expr(s, e)->Err_0 is MalformedInterpolation,
{
}

/// Where one statement of `statements[i..]` fails to lower, so do they all.
pub proof fn lemma_statements_fail(
    s: Seq<u8>,
    statements: Seq<Statement>,
    i: int,
    k: int,
    macros: Seq<MacroView>,
    base: int,
)
    requires
        0 <= i <= k < statements.len(),
        lower_statement(s, statements[k], macros, base) is Err,
    ensures
        lower_statements(s, statements, i, macros, base) is Err,
        (forall|j: int| i <= j < k ==> lower_statement(s, #[trigger] statements[j], macros, base) is Ok)
            ==> lower_statements(s, statements, i, macros, base) == Err::<Seq<InstrView>, _>(
            lower_statement(s, statements[k], macros, base)->Err_0,
        ),
    decreases k - i,
{
    if i < k {
        lemma_statements_fail(s, statements, i + 1, k, macros, base);
    }
}

/// Macro references are resolved when a block is lowered, against the
/// definitions of that block alone: a block that refers to a macro which
/// none of its statements defines does not lower. Where the first pass
/// succeeds and the statements before the reference lower, the error is
/// `UnknownMacro` with the name and the span of the reference.
pub proof fn lemma_unknown_macro(s: Seq<u8>, statements: Seq<Statement>, k: int, program: IrView)
    requires
        0 <= k < statements.len(),
        statements[k] is PipeChain,
        forall|j: int|
            0 <= j < statements.len() ==> !defines(
                s,
                #[trigger] statements[j],
                sigil_name(s, statements[k]->PipeChain_target),
            ),
    ensures
        lower_block(s, statements, program) is Err,
        ({
            let base = program.macros.len() as int;
            let table = collect(s, statements, 0, program.macros, base);
            table is Ok && (forall|j: int|
                0 <= j < k ==> lower_statement(s, #[trigger] statements[j], table->Ok_0, base) is Ok)
        }) ==> lower_block(s, statements, program) == Err::<IrView, _>(
            SemanticErrorView::UnknownMacro {
                name: sigil_name(s, statements[k]->PipeChain_target),
                span: statements[k]->PipeChain_target,
            },
        ),
{
    let base = program.macros.len() as int;
    let target = statements[k]->PipeChain_target;
    let name = sigil_name(s, target);
    lemma_collect(s, statements, 0, program.macros, base);
    match collect(s, statements, 0, program.macros, base) {
        Err(e) => {},
        Ok(table) => {
            lemma_find_macro(table, name, base);
            if find_macro(table, name, base) is Some {
                let at = find_macro(table, name, base)->Some_0;
                assert(registered(s, statements, statements.len() as int, table[at]));
                let j = choose|j: int|
                    0 <= j < statements.len() && j < statements.len() && defines(
                        s,
                        #[trigger] statements[j],
                        table[at].name,
                    ) && statements[j]->MacroDef_name == table[at].span;
                assert(defines(s, statements[j], name));
            }
            lemma_statements_fail(s, statements, 0, k, table, base);
        },
    }
}

/// A reference may stand before the definition it names: where the first
/// pass of a block succeeds, a reference to a macro that any statement of the
/// block defines lowers to an array bracket around a call of an entry of
/// that name, wherever in the block the definition stands.
pub proof fn lemma_reference_resolves(
    s: Seq<u8>,
    statements: Seq<Statement>,
    k: int,
    d: int,
    macros: Seq<MacroView>,
)
    requires
        0 <= k < statements.len(),
        0 <= d < statements.len(),
        statements[k] is PipeChain,
        defines(s, statements[d], sigil_name(s, statements[k]->PipeChain_target)),
        collect(s, statements, 0, macros, macros.len() as int) is Ok,
    ensures
        ({
            let base = macros.len() as int;
            let table = collect(s, statements, 0, macros, base)->Ok_0;
            let name = sigil_name(s, statements[k]->PipeChain_target);
            let index = find_macro(table, name, base);
            &&& index is Some
            &&& base <= index->Some_0 < table.len()
            &&& table[index->Some_0].name == name
            &&& lower_statement(s, statements[k], table, base) == Ok::<_, SemanticErrorView>(
                seq![
                    InstrView::BeginArrayIter { array: span_text(s, statements[k]->PipeChain_array) },
                    InstrView::BeginMacroCall { name, index: index->Some_0 as usize },
                    InstrView::EndMacroCall,
                    InstrView::EndArrayIter,
                ],
            )
        }),
{
    let base = macros.len() as int;
    let name = sigil_name(s, statements[k]->PipeChain_target);
    assert(all_registered(s, statements, 0, macros, base));
    lemma_collect(s, statements, 0, macros, base);
    let table = collect(s, statements, 0, macros, base)->Ok_0;
    assert(defines(s, statements[d], name));
    lemma_find_macro(table, name, base);
}

/// A block that defines one name twice does not lower: its first pass ends
/// in an error. Where that error is `DuplicateMacro`, it names two
/// definitions of one name in the block, the earlier as `first_span` and the
/// later as `dup_span`.
pub proof fn lemma_duplicate_macro(s: Seq<u8>, statements: Seq<Statement>, a: int, b: int, program: IrView)
    requires
        0 <= a < b < statements.len(),
        statements[a] is MacroDef,
        statements[b] is MacroDef,
        sigil_name(s, statements[a]->MacroDef_name) == sigil_name(s, statements[b]->MacroDef_name),
    ensures
        lower_block(s, statements, program) is Err,
        match lower_block(s, statements, program) {
            Err(SemanticErrorView::DuplicateMacro { name, first_span, dup_span }) => {
                exists|x: int, y: int|
                    0 <= x < y < statements.len() && defines(s, #[trigger] statements[x], name)
                        && defines(s, #[trigger] statements[y], name) && statements[x]->MacroDef_name
                        == first_span && statements[y]->MacroDef_name == dup_span
            },
            Err(SemanticErrorView::MalformedInterpolation { span }) => true,
            _ => false,
        },
{
    let base = program.macros.len() as int;
    let name = sigil_name(s, statements[a]->MacroDef_name);
    assert(all_registered(s, statements, 0, program.macros, base));
    lemma_collect(s, statements, 0, program.macros, base);
    lemma_collect_duplicate(s, statements, 0, a, b, program.macros, base);
}

/// The first pass fails on a block in which `statements[a]` and
/// `statements[b]` define one name.
proof fn lemma_collect_duplicate(
    s: Seq<u8>,
    statements: Seq<Statement>,
    i: int,
    a: int,
    b: int,
    macros: Seq<MacroView>,
    base: int,
)
    requires
        0 <= i <= b < statements.len(),
        0 <= a < b,
        0 <= base <= macros.len(),
        statements[a] is MacroDef,
        statements[b] is MacroDef,
        sigil_name(s, statements[a]->MacroDef_name) == sigil_name(s, statements[b]->MacroDef_name),
        a < i ==> find_macro(macros, sigil_name(s, statements[a]->MacroDef_name), base) is Some,
    ensures
        collect(s, statements, i, macros, base) is Err,
    decreases statements.len() - i,
{
    let name = sigil_name(s, statements[a]->MacroDef_name);
    if i == b {
    } else {
        match statements[i] {
            Statement::MacroDef { name: span, pattern, body } => {
                let text = sigil_name(s, span);
                match find_macro(macros, text, base) {
                    Some(first) => {},
                    None => match lower_expr(s, pattern) {
                        Err(e) => {},
                        Ok(p) => match lower_expr(s, body) {
                            Err(e) => {},
                            Ok(q) => {
                                let entry = MacroView { name: text, pattern: p, body: q, span };
                                lemma_find_macro_push(macros, entry, name, base);
                                lemma_collect_duplicate(s, statements, i + 1, a, b, macros.push(entry), base);
                            },
                        },
                    },
                }
            },
            _ => {
                lemma_collect_duplicate(s, statements, i + 1, a, b, macros, base);
            },
        }
    }
}

/// Where a block of a tree does not lower, whatever program stands before
/// it, the tree does not lower.
pub proof fn lemma_block_fails(s: Seq<u8>, tree: Seq<NodeView>, i: int, b: int, program: IrView)
    requires
        0 <= i <= b < tree.len(),
        tree[b] is ScriptBlock,
        forall|before: IrView| #[trigger] lower_block(s, tree[b]->ScriptBlock_statements, before) is Err,
    ensures
        lower_nodes(s, tree, i, program) is Err,
    decreases b - i,
{
    if i < b {
        match tree[i] {
            NodeView::HostText { span } => {
                lemma_block_fails(
                    s,
                    tree,
                    i + 1,
                    b,
                    IrView {
                        instrs: program.instrs.push(InstrView::EmitLiteral { text: span_text(s, span) }),
                        macros: program.macros,
                    },
                );
            },
            NodeView::ScriptBlock { statements } => {
                match lower_block(s, statements, program) {
                    Err(e) => {},
                    Ok(next) => {
                        lemma_block_fails(s, tree, i + 1, b, next);
                    },
                }
            },
        }
    } else {
        assert(lower_block(s, tree[b]->ScriptBlock_statements, program) is Err);
    }
}

/// The first block that does not lower decides the error of the tree: where
/// the nodes before it lower, whatever program stands before them, the tree
/// fails with the error of that block.
pub proof fn lemma_first_failure(
    s: Seq<u8>,
    tree: Seq<NodeView>,
    i: int,
    b: int,
    program: IrView,
    error: SemanticErrorView,
)
    requires
        0 <= i <= b < tree.len(),
        tree[b] is ScriptBlock,
        forall|before: IrView| #[trigger]
            lower_block(s, tree[b]->ScriptBlock_statements, before) == Err::<IrView, _>(error),
        forall|k: int, before: IrView|
            i <= k < b && (#[trigger] tree[k]) is ScriptBlock ==> #[trigger] lower_block(
                s,
                tree[k]->ScriptBlock_statements,
                before,
            ) is Ok,
    ensures
        lower_nodes(s, tree, i, program) == Err::<IrView, _>(error),
    decreases b - i,
{
    if i < b {
        match tree[i] {
            NodeView::HostText { span } => {
                lemma_first_failure(
                    s,
                    tree,
                    i + 1,
                    b,
                    IrView {
                        instrs: program.instrs.push(InstrView::EmitLiteral { text: span_text(s, span) }),
                        macros: program.macros,
                    },
                    error,
                );
            },
            NodeView::ScriptBlock { statements } => {
                assert(lower_block(s, tree[i]->ScriptBlock_statements, program) is Ok);
                lemma_first_failure(
                    s,
                    tree,
                    i + 1,
                    b,
                    lower_block(s, statements, program)->Ok_0,
                    error,
                );
            },
        }
    } else {
        assert(lower_block(s, tree[b]->ScriptBlock_statements, program) == Err::<IrView, _>(error));
    }
}

/// A tree in which a block refers to a macro that the block does not define
/// does not lower, even where another block defines a macro of that name.
pub proof fn lemma_static_resolution(s: Seq<u8>, tree: Seq<NodeView>, b: int, k: int)
    requires
        0 <= b < tree.len(),
        tree[b] is ScriptBlock,
        0 <= k < tree[b]->ScriptBlock_statements.len(),
        tree[b]->ScriptBlock_statements[k] is PipeChain,
        forall|j: int|
            0 <= j < tree[b]->ScriptBlock_statements.len() ==> !defines(
                s,
                #[trigger] tree[b]->ScriptBlock_statements[j],
                sigil_name(s, tree[b]->ScriptBlock_statements[k]->PipeChain_target),
            ),
    ensures
        lower(s, tree) is Err,
{
    let statements = tree[b]->ScriptBlock_statements;
    assert forall|before: IrView| #[trigger] lower_block(s, statements, before) is Err by {
        lemma_unknown_macro(s, statements, k, before);
    }
    lemma_block_fails(s, tree, 0, b, IrView { instrs: Seq::empty(), macros: Seq::empty() });
}

/// A tree in which a block defines one name twice does not lower.
pub proof fn lemma_duplicate_rejected(s: Seq<u8>, tree: Seq<NodeView>, b: int, x: int, y: int)
    requires
        0 <= b < tree.len(),
        tree[b] is ScriptBlock,
        0 <= x < y < tree[b]->ScriptBlock_statements.len(),
        tree[b]->ScriptBlock_statements[x] is MacroDef,
        tree[b]->ScriptBlock_statements[y] is MacroDef,
        sigil_name(s, tree[b]->ScriptBlock_statements[x]->MacroDef_name) == sigil_name(
            s,
            tree[b]->ScriptBlock_statements[y]->MacroDef_name,
        ),
    ensures
        lower(s, tree) is Err,
{
    let statements = tree[b]->ScriptBlock_statements;
    assert forall|before: IrView| #[trigger] lower_block(s, statements, before) is Err by {
        lemma_duplicate_macro(s, statements, x, y, before);
    }
    lemma_block_fails(s, tree, 0, b, IrView { instrs: Seq::empty(), macros: Seq::empty() });
}

/// Whether the definitions among `statements[..n]` have names of their own
/// and operands that lower.
pub open spec fn definitions_fine(s: Seq<u8>, statements: Seq<Statement>, n: int) -> bool {
    &&& forall|x: int, y: int|
        0 <= x < y < n && (#[trigger] statements[x]) is MacroDef && (#[trigger] statements[y])
            is MacroDef ==> sigil_name(s, statements[x]->MacroDef_name) != sigil_name(
            s,
            statements[y]->MacroDef_name,
        )
    &&& forall|x: int|
        0 <= x < n && (#[trigger] statements[x]) is MacroDef ==> lower_expr(
            s,
            statements[x]->MacroDef_pattern,
        ) is Ok && lower_expr(s, statements[x]->MacroDef_body) is Ok
}

/// The first pass from `i` on ends at the second definition of a name, and
/// names both definitions.
proof fn lemma_collect_exact(
    s: Seq<u8>,
    statements: Seq<Statement>,
    i: int,
    a: int,
    b: int,
    macros: Seq<MacroView>,
    base: int,
)
    requires
        0 <= i <= b < statements.len(),
        0 <= a < b,
        0 <= base <= macros.len(),
        statements[a] is MacroDef,
        statements[b] is MacroDef,
        sigil_name(s, statements[a]->MacroDef_name) == sigil_name(s, statements[b]->MacroDef_name),
        definitions_fine(s, statements, b),
        all_registered(s, statements, i, macros, base),
        a < i ==> find_macro(macros, sigil_name(s, statements[a]->MacroDef_name), base) is Some,
    ensures
        collect(s, statements, i, macros, base) == Err::<Seq<MacroView>, _>(
            SemanticErrorView::DuplicateMacro {
                name: sigil_name(s, statements[b]->MacroDef_name),
                first_span: statements[a]->MacroDef_name,
                dup_span: statements[b]->MacroDef_name,
            },
        ),
    decreases statements.len() - i,
{
    let wanted = sigil_name(s, statements[a]->MacroDef_name);
    match statements[i] {
        Statement::MacroDef { name, pattern, body } => {
            let text = sigil_name(s, name);
            lemma_find_macro(macros, text, base);
            match find_macro(macros, text, base) {
                Some(first) => {
                    assert(registered(s, statements, i, macros[first]));
                    let j = choose|j: int|
                        0 <= j < i && j < statements.len() && defines(
                            s,
                            #[trigger] statements[j],
                            macros[first].name,
                        ) && statements[j]->MacroDef_name == macros[first].span;
                    assert(statements[j] is MacroDef);
                    if i < b {
                        assert(sigil_name(s, statements[j]->MacroDef_name) != sigil_name(
                            s,
                            statements[i]->MacroDef_name,
                        ));
                    } else if j != a {
                        if j < a {
                            assert(sigil_name(s, statements[j]->MacroDef_name) != sigil_name(
                                s,
                                statements[a]->MacroDef_name,
                            ));
                        } else {
                            assert(sigil_name(s, statements[a]->MacroDef_name) != sigil_name(
                                s,
                                statements[j]->MacroDef_name,
                            ));
                        }
                    }
                },
                None => {
                    assert(i < b);
                    let p = lower_expr(s, pattern)->Ok_0;
                    let q = lower_expr(s, body)->Ok_0;
                    let entry = MacroView { name: text, pattern: p, body: q, span: name };
                    let next = macros.push(entry);
                    assert forall|k: int| base <= k < next.len() implies registered(
                        s,
                        statements,
                        i + 1,
                        #[trigger] next[k],
                    ) by {
                        if k < macros.len() {
                            assert(registered(s, statements, i, macros[k]));
                            let j = choose|j: int|
                                0 <= j < i && j < statements.len() && defines(
                                    s,
                                    #[trigger] statements[j],
                                    macros[k].name,
                                ) && statements[j]->MacroDef_name == macros[k].span;
                            assert(defines(s, statements[j], next[k].name));
                        } else {
                            assert(defines(s, statements[i], entry.name));
                        }
                    }
                    lemma_find_macro_push(macros, entry, wanted, base);
                    lemma_collect_exact(s, statements, i + 1, a, b, next, base);
                },
            }
        },
        _ => {
            assert forall|k: int| base <= k < macros.len() implies registered(
                s,
                statements,
                i + 1,
                #[trigger] macros[k],
            ) by {
                assert(registered(s, statements, i, macros[k]));
                let j = choose|j: int|
                    0 <= j < i && j < statements.len() && defines(
                        s,
                        #[trigger] statements[j],
                        macros[k].name,
                    ) && statements[j]->MacroDef_name == macros[k].span;
                assert(defines(s, statements[j], macros[k].name));
            }
            lemma_collect_exact(s, statements, i + 1, a, b, macros, base);
        },
    }
}

/// Neither of two definitions of one name wins: where `statements[b]`
/// defines the name that `statements[a]` before it defines, and the
/// definitions before `statements[b]` are fine, the block fails with
/// `DuplicateMacro`, with the name, the span of the earlier definition as
/// `first_span` and that of the later as `dup_span`.
pub proof fn lemma_duplicate_exact(s: Seq<u8>, statements: Seq<Statement>, a: int, b: int, program: IrView)
    requires
        0 <= a < b < statements.len(),
        statements[a] is MacroDef,
        statements[b] is MacroDef,
        sigil_name(s, statements[a]->MacroDef_name) == sigil_name(s, statements[b]->MacroDef_name),
        definitions_fine(s, statements, b),
    ensures
        lower_block(s, statements, program) == Err::<IrView, _>(
            SemanticErrorView::DuplicateMacro {
                name: sigil_name(s, statements[b]->MacroDef_name),
                first_span: statements[a]->MacroDef_name,
                dup_span: statements[b]->MacroDef_name,
            },
        ),
{
    let base = program.macros.len() as int;
    assert(all_registered(s, statements, 0, program.macros, base));
    lemma_collect_exact(s, statements, 0, a, b, program.macros, base);
}

/// The second pass of a block never ends in `DuplicateMacro`.
pub proof fn lemma_statements_error(
    s: Seq<u8>,
    statements: Seq<Statement>,
    i: int,
    macros: Seq<MacroView>,
    base: int,
)
    ensures
        lower_statements(s, statements, i, macros, base) is Err ==> !(lower_statements(
            s,
            statements,
            i,
            macros,
            base,
        )->Err_0 is DuplicateMacro),
    decreases statements.len() - i,
{
    if 0 <= i < statements.len() {
        match statements[i] {
            Statement::Expression { expr } => {
                lemma_expr_shape(s, expr);
            },
            _ => {},
        }
        lemma_statements_error(s, statements, i + 1, macros, base);
    }
}

/// A `DuplicateMacro` names two places: in a tree whose statements start one
/// behind the other, the first definition starts before the second.
pub proof fn lemma_duplicate_spans(s: Seq<u8>, tree: Seq<NodeView>, i: int, program: IrView)
    requires
        tree_rising(tree),
    ensures
        match lower_nodes(s, tree, i, program) {
            Err(SemanticErrorView::DuplicateMacro { name, first_span, dup_span }) => first_span.start
                < dup_span.start,
            _ => true,
        },
    decreases tree.len() - i,
{
    if 0 <= i < tree.len() {
        match tree[i] {
            NodeView::HostText { span } => {
                lemma_duplicate_spans(
                    s,
                    tree,
                    i + 1,
                    IrView {
                        instrs: program.instrs.push(InstrView::EmitLiteral { text: span_text(s, span) }),
                        macros: program.macros,
                    },
                );
            },
            NodeView::ScriptBlock { statements } => {
                let base = program.macros.len() as int;
                assert(leads_rising(statements));
                assert(all_registered(s, statements, 0, program.macros, base));
                lemma_collect(s, statements, 0, program.macros, base);
                match collect(s, statements, 0, program.macros, base) {
                    Err(SemanticErrorView::DuplicateMacro { name, first_span, dup_span }) => {
                        let (a, b) = choose|a: int, b: int|
                            0 <= a < b < statements.len() && defines(s, #[trigger] statements[a], name)
                                && defines(s, #[trigger] statements[b], name)
                                && statements[a]->MacroDef_name == first_span
                                && statements[b]->MacroDef_name == dup_span;
                        assert(lead(statements[a]) == first_span);
                        assert(lead(statements[b]) == dup_span);
                    },
                    Err(e) => {},
                    Ok(macros) => {
                        lemma_statements_error(s, statements, 0, macros, base);
                        match lower_statements(s, statements, 0, macros, base) {
                            Err(e) => {},
                            Ok(instrs) => {
                                lemma_duplicate_spans(
                                    s,
                                    tree,
                                    i + 1,
                                    IrView { instrs: program.instrs + instrs, macros },
                                );
                            },
                        }
                    },
                }
            },
        }
    }
}

} // verus!
