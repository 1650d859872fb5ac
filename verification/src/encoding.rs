//! Rendering keeps text well encoded: where the template and the values it
//! is rendered with are UTF-8, so is everything that is written.

pub mod report;

use vstd::prelude::*;
use vstd::utf8::{
    is_char_boundary, is_char_boundary_iff_not_is_continuation_byte,
    is_char_boundary_start_end_of_seq, partial_valid_utf8_extend_ascii_block, valid_utf8,
    valid_utf8_concat, valid_utf8_split,
};
use crate::ir::bracket::{iter_end, lemma_iter_end_bounds};
use crate::ir::instr::{InstrView, IrView, MacroView, SemanticErrorView};
use crate::ir::lower::{
    collect, find_macro, flush, interpolation_end, literal_body, lower, lower_expr, lower_nodes,
    lower_statement, lower_statements, pieces, sigil_name,
};
use crate::render::rendering;
use crate::syntax::lexer::{block_after, lemma_token_bounds, lex, lex_from, token_at};
use crate::syntax::parser::{block, lemma_block_advances, nodes, parse_spec, peek, separated, statement};
use crate::syntax::token::{span_at, span_text, within, Span, Token, TokenKind};
use crate::syntax::tree::{Expr, NodeView, Statement};
use crate::playground::{session_env, shown_output, split_arrays};
use crate::render::compile;
use crate::text::{
    decimal, host_end, ident_end, is_blank, is_ident_part, lemma_host_end_bounds,
    lemma_ident_end_bounds,
    lemma_line_end_bounds, lemma_string_end_bounds, line_at, line_end, lines, lines_from,
    opens_block, string_end,
};
use crate::vm::env::key_index;
use crate::vm::semantics::{
    apply, bound_below, call, execute, fragment, iteration_scope, resolve, run_items, run_range,
    step, then, Env, Outcome,
};

verus! {

/// Whether `b` is an ASCII byte, which encodes a character by itself.
pub open spec fn ascii(b: u8) -> bool {
    b < 128
}

/// Whether `i` is a place of `s` next to an ASCII byte, or one of its ends:
/// a place where well-encoded text can be cut without cutting a character.
pub open spec fn cut(s: Seq<u8>, i: int) -> bool {
    0 <= i <= s.len() && (i == 0 || i == s.len() || ascii(s[i]) || ascii(s[i - 1]))
}

/// A cut of well-encoded text is a character boundary.
pub proof fn lemma_cut_is_boundary(s: Seq<u8>, i: int)
    requires
        valid_utf8(s),
        cut(s, i),
    ensures
        is_char_boundary(s, i),
{
    if i == 0 || i == s.len() {
        is_char_boundary_start_end_of_seq(s);
    } else if ascii(s[i]) {
        is_char_boundary_iff_not_is_continuation_byte(s, i);
    } else {
        is_char_boundary_iff_not_is_continuation_byte(s, i - 1);
        valid_utf8_split(s, i - 1);
        let t = s.subrange(i - 1, s.len() as int);
        assert(t[0] == s[i - 1]);
        assert(t[1] == s[i]);
        reveal_with_fuel(valid_utf8, 2);
        let u = t.subrange(1, t.len() as int);
        assert(u[0] == s[i]);
        assert(valid_utf8(u));
        is_char_boundary_iff_not_is_continuation_byte(s, i);
    }
}

/// The part of well-encoded text between two cuts is well encoded.
pub proof fn lemma_valid_between(s: Seq<u8>, a: int, b: int)
    requires
        valid_utf8(s),
        cut(s, a),
        cut(s, b),
        a <= b,
    ensures
        valid_utf8(s.subrange(a, b)),
{
    lemma_cut_is_boundary(s, b);
    valid_utf8_split(s, b);
    let head = s.subrange(0, b);
    if 0 < a < b {
        assert(head[a] == s[a]);
        assert(head[a - 1] == s[a - 1]);
    }
    lemma_cut_is_boundary(head, a);
    valid_utf8_split(head, a);
    assert(head.subrange(a, head.len() as int) =~= s.subrange(a, b));
}

/// Text of ASCII bytes is well encoded.
pub proof fn lemma_ascii_valid(s: Seq<u8>)
    requires
        forall|i: int| 0 <= i < s.len() ==> ascii(#[trigger] s[i]),
    ensures
        valid_utf8(s),
{
    assert(s.subrange(0, 0) =~= Seq::<u8>::empty());
    partial_valid_utf8_extend_ascii_block(s, 0, s.len() as int);
    assert(s.subrange(0, s.len() as int) =~= s);
}

/// Decimal digits are ASCII.
pub proof fn lemma_decimal_valid(n: nat)
    ensures
        forall|i: int| 0 <= i < decimal(n).len() ==> ascii(#[trigger] decimal(n)[i]),
        valid_utf8(decimal(n)),
    decreases n,
{
    if n >= 10 {
        lemma_decimal_valid(n / 10);
    }
    lemma_ascii_valid(decimal(n));
}

/// Whether `span` is a range of `s` that holds ASCII bytes only, as a name
/// does, with or without its sigil.
pub open spec fn word_sound(s: Seq<u8>, span: Span) -> bool {
    within(span, s.len() as int) && forall|i: int|
        span.start <= i < span.end ==> ascii(#[trigger] s[i])
}

/// A run of identifier bytes holds identifier bytes, which are ASCII.
pub proof fn lemma_ident_run(s: Seq<u8>, pos: int)
    requires
        0 <= pos <= s.len(),
    ensures
        forall|i: int| pos <= i < ident_end(s, pos) ==> ascii(#[trigger] s[i]),
    decreases s.len() - pos,
{
    if pos < s.len() && is_ident_part(s[pos]) {
        lemma_ident_run(s, pos + 1);
    }
}

/// The text of a sound word is well encoded, with and without its first
/// byte.
pub proof fn lemma_word_valid(s: Seq<u8>, span: Span)
    requires
        word_sound(s, span),
    ensures
        valid_utf8(span_text(s, span)),
        valid_utf8(sigil_name(s, span)),
{
    let t = span_text(s, span);
    assert forall|i: int| 0 <= i < t.len() implies ascii(#[trigger] t[i]) by {
        assert(t[i] == s[span.start + i]);
    }
    lemma_ascii_valid(t);
    let n = sigil_name(s, span);
    assert forall|i: int| 0 <= i < n.len() implies ascii(#[trigger] n[i]) by {
        if t.len() > 0 {
            assert(n[i] == t[i + 1]);
        }
    }
    lemma_ascii_valid(n);
}

/// Whether every name that `instrs` hold is well encoded.
pub open spec fn names_valid(instrs: Seq<InstrView>) -> bool {
    forall|k: int|
        0 <= k < instrs.len() ==> match #[trigger] instrs[k] {
            InstrView::EmitVar { name } => valid_utf8(name),
            InstrView::BeginArrayIter { array } => valid_utf8(array),
            InstrView::BeginMacroCall { name, index } => valid_utf8(name),
            _ => true,
        }
}

/// Two sequences of well-encoded names are one, one behind the other.
pub proof fn lemma_names_valid_add(first: Seq<InstrView>, second: Seq<InstrView>)
    requires
        names_valid(first),
        names_valid(second),
    ensures
        names_valid(first + second),
{
    let all = first + second;
    assert forall|k: int| 0 <= k < all.len() implies match #[trigger] all[k] {
        InstrView::EmitVar { name } => valid_utf8(name),
        InstrView::BeginArrayIter { array } => valid_utf8(array),
        InstrView::BeginMacroCall { name, index } => valid_utf8(name),
        _ => true,
    } by {
        if k < first.len() {
            assert(all[k] == first[k]);
        } else {
            assert(all[k] == second[k - first.len()]);
        }
    }
}

/// Whether every literal that `instrs` write is well encoded.
pub open spec fn literals_valid(instrs: Seq<InstrView>) -> bool {
    forall|k: int|
        0 <= k < instrs.len() && (#[trigger] instrs[k]) is EmitLiteral ==> valid_utf8(
            instrs[k]->EmitLiteral_text,
        )
}

/// Two sequences of well-encoded literals are one, one behind the other.
pub proof fn lemma_literals_valid_add(first: Seq<InstrView>, second: Seq<InstrView>)
    requires
        literals_valid(first),
        literals_valid(second),
    ensures
        literals_valid(first + second),
{
    let all = first + second;
    assert forall|k: int| 0 <= k < all.len() && (#[trigger] all[k]) is EmitLiteral implies valid_utf8(
        all[k]->EmitLiteral_text,
    ) by {
        if k < first.len() {
            assert(all[k] == first[k]);
        } else {
            assert(all[k] == second[k - first.len()]);
        }
    }
}

/// The literals of the contents of a well-encoded string literal are well
/// encoded. `pending` is what was read since the last interpolation:
/// `done`, and behind it the text from the cut `j` up to `i`.
pub proof fn lemma_pieces_valid(raw: Seq<u8>, i: int, pending: Seq<u8>, done: Seq<u8>, j: int)
    requires
        valid_utf8(raw),
        valid_utf8(done),
        cut(raw, j),
        j <= i <= raw.len(),
        pending == done + raw.subrange(j, i),
    ensures
        pieces(raw, i, pending) is Ok ==> literals_valid(pieces(raw, i, pending)->Ok_0)
            && names_valid(pieces(raw, i, pending)->Ok_0),
    decreases raw.len() - i,
{
    if i >= raw.len() {
        lemma_valid_between(raw, j, i);
        valid_utf8_concat(done, raw.subrange(j, i));
    } else if raw[i] == '\\' as u8 && i + 1 < raw.len() && raw[i + 1] == '"' as u8 {
        lemma_valid_between(raw, j, i);
        valid_utf8_concat(done, raw.subrange(j, i));
        let quote = seq!['"' as u8];
        lemma_ascii_valid(quote);
        valid_utf8_concat(pending, quote);
        let next = pending.push('"' as u8);
        assert(next =~= pending + quote);
        assert(next =~= next + raw.subrange(i + 2, i + 2));
        lemma_pieces_valid(raw, i + 2, next, next, i + 2);
    } else if raw[i] == '$' as u8 && i + 1 < raw.len() && raw[i + 1] == '(' as u8 {
        match interpolation_end(raw, i) {
            None => {},
            Some(next) => {
                lemma_ident_end_bounds(raw, i + 2);
                lemma_valid_between(raw, j, i);
                valid_utf8_concat(done, raw.subrange(j, i));
                let empty = Seq::<u8>::empty();
                assert(empty =~= empty + raw.subrange(next, next));
                lemma_pieces_valid(raw, next, empty, empty, next);
                match pieces(raw, next, empty) {
                    Ok(rest) => {
                        let name = raw.subrange(i + 2, next - 1);
                        lemma_ident_run(raw, i + 2);
                        assert forall|n: int| 0 <= n < name.len() implies ascii(#[trigger] name[n]) by {
                            assert(name[n] == raw[i + 2 + n]);
                        }
                        lemma_ascii_valid(name);
                        let var = seq![InstrView::EmitVar { name }];
                        lemma_literals_valid_add(flush(pending), var);
                        lemma_literals_valid_add(flush(pending) + var, rest);
                        lemma_names_valid_add(flush(pending), var);
                        lemma_names_valid_add(flush(pending) + var, rest);
                    },
                    Err(at) => {},
                }
            },
        }
    } else {
        assert(pending.push(raw[i]) =~= done + raw.subrange(j, i + 1));
        lemma_pieces_valid(raw, i + 1, pending.push(raw[i]), done, j);
    }
}

/// Whether every literal of `p`, in its instructions and in its macros, is
/// well encoded.
pub open spec fn program_valid(p: IrView) -> bool {
    &&& literals_valid(p.instrs)
    &&& forall|k: int|
        0 <= k < p.macros.len() ==> literals_valid((#[trigger] p.macros[k]).pattern)
            && literals_valid(p.macros[k].body)
}

/// Whether every variable and every element of every array is well encoded.
pub open spec fn env_valid(env: Env) -> bool {
    &&& forall|name: Seq<u8>|
        env.variables.contains_key(name) ==> valid_utf8(#[trigger] env.variables[name])
    &&& forall|name: Seq<u8>, k: int|
        env.arrays.contains_key(name) && 0 <= k < env.arrays[name].len() ==> valid_utf8(
            #[trigger] env.arrays[name][k],
        )
}

/// Whether every value bound in `scope` is well encoded.
pub open spec fn scope_valid(scope: Seq<(Seq<u8>, Seq<u8>)>) -> bool {
    forall|k: int| 0 <= k < scope.len() ==> valid_utf8((#[trigger] scope[k]).1)
}

/// A name resolves to a well-encoded value.
pub proof fn lemma_resolve_valid(env: Env, scope: Seq<(Seq<u8>, Seq<u8>)>, name: Seq<u8>, n: int)
    requires
        env_valid(env),
        scope_valid(scope),
        0 <= n <= scope.len(),
    ensures
        bound_below(scope, name, n) is Some ==> valid_utf8(bound_below(scope, name, n)->Some_0),
        n == scope.len() && resolve(env, scope, name) is Some ==> valid_utf8(
            resolve(env, scope, name)->Some_0,
        ),
    decreases n,
{
    if n > 0 {
        assert(valid_utf8(scope[n - 1].1));
        lemma_resolve_valid(env, scope, name, n - 1);
    }
}

/// Two well-encoded outcomes, one after the other, are well encoded.
pub proof fn lemma_then_valid(first: Outcome, second: Outcome)
    requires
        valid_utf8(first.output),
        valid_utf8(second.output),
    ensures
        valid_utf8(then(first, second).output),
{
    valid_utf8_concat(first.output, second.output);
}

/// What a fragment writes is well encoded.
pub proof fn lemma_fragment_valid(
    env: Env,
    scope: Seq<(Seq<u8>, Seq<u8>)>,
    instrs: Seq<InstrView>,
    i: int,
)
    requires
        env_valid(env),
        scope_valid(scope),
        literals_valid(instrs),
    ensures
        valid_utf8(fragment(env, scope, instrs, i).output),
    decreases instrs.len() - i,
{
    if 0 <= i < instrs.len() {
        lemma_step_valid(env, scope, instrs[i]);
        lemma_fragment_valid(env, scope, instrs, i + 1);
        lemma_then_valid(step(env, scope, instrs[i]), fragment(env, scope, instrs, i + 1));
    }
}

/// What one writing instruction writes is well encoded.
pub proof fn lemma_step_valid(env: Env, scope: Seq<(Seq<u8>, Seq<u8>)>, instr: InstrView)
    requires
        env_valid(env),
        scope_valid(scope),
        instr is EmitLiteral ==> valid_utf8(instr->EmitLiteral_text),
    ensures
        valid_utf8(step(env, scope, instr).output),
{
    match instr {
        InstrView::EmitVar { name } => {
            lemma_resolve_valid(env, scope, name, scope.len() as int);
        },
        _ => {},
    }
}

/// What applying a macro writes is well encoded.
pub proof fn lemma_apply_valid(env: Env, scope: Seq<(Seq<u8>, Seq<u8>)>, m: MacroView)
    requires
        env_valid(env),
        scope_valid(scope),
        literals_valid(m.pattern),
        literals_valid(m.body),
    ensures
        valid_utf8(apply(env, scope, m).output),
{
    lemma_fragment_valid(env, scope, m.pattern, 0);
    let pattern = fragment(env, scope, m.pattern, 0);
    if pattern.error is None {
        let inner = scope.push((crate::vm::semantics::result_name(), pattern.output));
        assert forall|k: int| 0 <= k < inner.len() implies valid_utf8((#[trigger] inner[k]).1) by {
            if k < scope.len() {
                assert(inner[k] == scope[k]);
            }
        }
        lemma_fragment_valid(env, inner, m.body, 0);
    }
}

/// What a range of instructions writes is well encoded.
pub proof fn lemma_range_valid(p: IrView, env: Env, scope: Seq<(Seq<u8>, Seq<u8>)>, lo: int, hi: int)
    requires
        program_valid(p),
        env_valid(env),
        scope_valid(scope),
        hi <= p.instrs.len(),
    ensures
        valid_utf8(run_range(p, env, scope, lo, hi).output),
    decreases hi - lo, 0nat,
{
    if 0 <= lo < hi {
        match p.instrs[lo] {
            InstrView::BeginArrayIter { array } => {
                let end = iter_end(p.instrs, lo + 1, hi, 0);
                lemma_iter_end_bounds(p.instrs, lo + 1, hi, 0);
                let next = if end < hi {
                    end + 1
                } else {
                    hi
                };
                if env.arrays.contains_key(array) {
                    lemma_items_valid(p, env, scope, lo + 1, end, array, 0);
                    lemma_range_valid(p, env, scope, next, hi);
                    lemma_then_valid(
                        run_items(p, env, scope, lo + 1, end, env.arrays[array], 0),
                        run_range(p, env, scope, next, hi),
                    );
                }
            },
            InstrView::BeginMacroCall { name, index } => {
                if index < p.macros.len() {
                    lemma_apply_valid(env, scope, p.macros[index as int]);
                }
                lemma_range_valid(p, env, scope, lo + 1, hi);
                lemma_then_valid(call(p, env, scope, index), run_range(p, env, scope, lo + 1, hi));
            },
            other => {
                lemma_step_valid(env, scope, other);
                lemma_range_valid(p, env, scope, lo + 1, hi);
                lemma_then_valid(step(env, scope, other), run_range(p, env, scope, lo + 1, hi));
            },
        }
    }
}

/// What the body of a bracket writes for the elements of the array `array`
/// is well encoded.
pub proof fn lemma_items_valid(
    p: IrView,
    env: Env,
    scope: Seq<(Seq<u8>, Seq<u8>)>,
    lo: int,
    hi: int,
    array: Seq<u8>,
    k: int,
)
    requires
        program_valid(p),
        env_valid(env),
        scope_valid(scope),
        hi <= p.instrs.len(),
        env.arrays.contains_key(array),
    ensures
        valid_utf8(run_items(p, env, scope, lo, hi, env.arrays[array], k).output),
    decreases hi - lo, env.arrays[array].len() - k + 1,
{
    let items = env.arrays[array];
    if 0 <= k < items.len() {
        let inner = iteration_scope(scope, k, items[k]);
        lemma_decimal_valid(k as nat);
        assert(valid_utf8(items[k]));
        assert forall|n: int| 0 <= n < inner.len() implies valid_utf8((#[trigger] inner[n]).1) by {
            if n < scope.len() {
                assert(inner[n] == scope[n]);
            }
        }
        lemma_range_valid(p, env, inner, lo, hi);
        lemma_items_valid(p, env, scope, lo, hi, array, k + 1);
        lemma_then_valid(
            run_range(p, env, inner, lo, hi),
            run_items(p, env, scope, lo, hi, items, k + 1),
        );
    }
}

/// A program whose literals are well encoded, run against well-encoded
/// values, writes well-encoded text, whether or not the run ends in an error.
pub proof fn lemma_execute_valid(p: IrView, env: Env)
    requires
        program_valid(p),
        env_valid(env),
    ensures
        valid_utf8(execute(p, env).output),
{
    lemma_range_valid(p, env, Seq::empty(), 0, p.instrs.len() as int);
}

/// Whether `span` is host text of `s` that starts and ends at a cut.
pub open spec fn host_sound(s: Seq<u8>, span: Span) -> bool {
    within(span, s.len() as int) && cut(s, span.start as int) && cut(s, span.end as int)
}

/// Whether `span` is a range of `s` of two bytes or more that starts and
/// ends with an ASCII byte, as a string literal does with its quotes.
pub open spec fn literal_sound(s: Seq<u8>, span: Span) -> bool {
    span.start + 2 <= span.end && span.end as int <= s.len() && ascii(s[span.start as int]) && ascii(
        s[span.end - 1],
    )
}

/// Whether the string literal or the name of an expression is sound.
pub open spec fn expr_sound(s: Seq<u8>, e: Expr) -> bool {
    match e {
        Expr::StringLiteral { span } => literal_sound(s, span),
        Expr::VarRef { span } => word_sound(s, span),
    }
}

/// Whether the string literals and the names of a statement are sound.
pub open spec fn statement_sound(s: Seq<u8>, statement: Statement) -> bool {
    match statement {
        Statement::Comment { span } => true,
        Statement::Expression { expr } => expr_sound(s, expr),
        Statement::MacroDef { name, pattern, body } => word_sound(s, name) && expr_sound(s, pattern)
            && expr_sound(s, body),
        Statement::ArraySelect { array } => word_sound(s, array),
        Statement::PipeChain { array, target } => word_sound(s, array) && word_sound(s, target),
    }
}

/// Whether the statements of a block are sound.
pub open spec fn statements_sound(s: Seq<u8>, statements: Seq<Statement>) -> bool {
    forall|j: int| 0 <= j < statements.len() ==> statement_sound(s, #[trigger] statements[j])
}

/// Whether the host text and the string literals of a node are sound.
pub open spec fn node_sound(s: Seq<u8>, node: NodeView) -> bool {
    match node {
        NodeView::HostText { span } => host_sound(s, span),
        NodeView::ScriptBlock { statements } => statements_sound(s, statements),
    }
}

/// Whether the host text and the string literals of a tree are sound.
pub open spec fn tree_sound(s: Seq<u8>, tree: Seq<NodeView>) -> bool {
    forall|j: int| 0 <= j < tree.len() ==> node_sound(s, #[trigger] tree[j])
}

/// Whether a token of host text, a string literal or a name is sound.
pub open spec fn token_sound(s: Seq<u8>, t: Token) -> bool {
    match t.kind {
        TokenKind::HostText => host_sound(s, t.span),
        TokenKind::StringLiteral => literal_sound(s, t.span),
        TokenKind::Identifier => word_sound(s, t.span),
        TokenKind::MacroDef => word_sound(s, t.span),
        TokenKind::MacroRef => word_sound(s, t.span),
        _ => true,
    }
}

/// Whether every token is sound.
pub open spec fn tokens_sound(s: Seq<u8>, tokens: Seq<Token>) -> bool {
    forall|k: int| 0 <= k < tokens.len() ==> token_sound(s, #[trigger] tokens[k])
}

/// Host text ends at `{{` or at the end of the source.
pub proof fn lemma_host_end_stops(s: Seq<u8>, pos: int)
    requires
        0 <= pos <= s.len(),
    ensures
        host_end(s, pos) == s.len() || opens_block(s, host_end(s, pos)),
    decreases s.len() - pos,
{
    if pos < s.len() && !opens_block(s, pos) {
        lemma_host_end_stops(s, pos + 1);
    }
}

/// The contents of a string literal end at a quote or at the end of the
/// source.
pub proof fn lemma_string_end_stops(s: Seq<u8>, pos: int)
    requires
        0 <= pos <= s.len(),
    ensures
        string_end(s, pos) == s.len() || s[string_end(s, pos)] == '"' as u8,
    decreases s.len() - pos,
{
    if pos < s.len() && s[pos] != '"' as u8 {
        if s[pos] == '\\' as u8 && pos + 1 < s.len() && s[pos + 1] == '"' as u8 {
            lemma_string_end_stops(s, pos + 2);
        } else {
            lemma_string_end_stops(s, pos + 1);
        }
    }
}

/// The lexer cuts host text and string literals next to ASCII bytes, and
/// names hold ASCII bytes only.
pub proof fn lemma_lex_sound(s: Seq<u8>, pos: int, in_block: bool)
    requires
        0 <= pos <= s.len() <= usize::MAX,
        !in_block ==> cut(s, pos),
    ensures
        tokens_sound(s, lex_from(s, pos, in_block)),
    decreases s.len() - pos,
{
    if pos >= s.len() {
    } else if in_block && is_blank(s[pos]) {
        lemma_lex_sound(s, pos + 1, in_block);
    } else {
        let kind = token_at(s, pos, in_block).0;
        let end = token_at(s, pos, in_block).1;
        lemma_token_bounds(s, pos, in_block);
        lemma_host_end_stops(s, pos);
        lemma_host_end_bounds(s, pos);
        lemma_string_end_stops(s, pos + 1);
        lemma_string_end_bounds(s, pos + 1);
        lemma_ident_run(s, pos);
        lemma_ident_run(s, pos + 1);
        let first = Token { kind, span: span_at(s, pos, end) };
        assert(first.span.start == pos && first.span.end == end);
        assert(token_sound(s, first));
        let rest = lex_from(s, end, block_after(kind, in_block));
        lemma_lex_sound(s, end, block_after(kind, in_block));
        let tokens = seq![first] + rest;
        assert forall|k: int| 0 <= k < tokens.len() implies token_sound(s, #[trigger] tokens[k]) by {
            if k > 0 {
                assert(tokens[k] == rest[k - 1]);
            }
        }
    }
}

/// A statement of sound tokens is sound.
pub proof fn lemma_statement_sound(s: Seq<u8>, tokens: Seq<Token>, i: int)
    requires
        tokens_sound(s, tokens),
    ensures
        statement(tokens, i) is Ok ==> statement_sound(s, statement(tokens, i)->Ok_0.0),
{
    assert forall|k: int| token_sound(s, #[trigger] peek(tokens, k)) by {
        if 0 <= k < tokens.len() {
            assert(token_sound(s, tokens[k]));
        }
    }
    assert(token_sound(s, peek(tokens, i)));
    assert(token_sound(s, peek(tokens, i + 1)));
    assert(token_sound(s, peek(tokens, i + 3)));
    assert(token_sound(s, peek(tokens, i + 5)));
}

/// The statements of a block of sound tokens are sound.
pub proof fn lemma_block_sound(s: Seq<u8>, tokens: Seq<Token>, i: int)
    requires
        tokens_sound(s, tokens),
    ensures
        block(tokens, i) is Ok ==> statements_sound(s, block(tokens, i)->Ok_0.0),
    decreases tokens.len() - i,
{
    let t = peek(tokens, i);
    if t.kind == TokenKind::Newline {
        lemma_block_sound(s, tokens, i + 1);
    } else if t.kind == TokenKind::BlockClose {
    } else {
        lemma_statement_sound(s, tokens, i);
        match statement(tokens, i) {
            Err(e) => {},
            Ok((first, next)) => {
                if separated(tokens, next) {
                    lemma_block_sound(s, tokens, next);
                    match block(tokens, next) {
                        Err(e) => {},
                        Ok((rest, end)) => {
                            let all = seq![first] + rest;
                            assert forall|j: int| 0 <= j < all.len() implies statement_sound(
                                s,
                                #[trigger] all[j],
                            ) by {
                                if j > 0 {
                                    assert(all[j] == rest[j - 1]);
                                }
                            }
                        },
                    }
                }
            },
        }
    }
}

/// The tree of sound tokens is sound.
pub proof fn lemma_nodes_sound(s: Seq<u8>, tokens: Seq<Token>, i: int)
    requires
        tokens_sound(s, tokens),
    ensures
        nodes(tokens, i) is Ok ==> tree_sound(s, nodes(tokens, i)->Ok_0),
    decreases tokens.len() - i,
{
    let t = peek(tokens, i);
    if 0 <= i < tokens.len() {
        assert(token_sound(s, tokens[i]));
    }
    if i >= 0 {
        match t.kind {
            TokenKind::HostText => {
                lemma_nodes_sound(s, tokens, i + 1);
                match nodes(tokens, i + 1) {
                    Err(e) => {},
                    Ok(rest) => {
                        let all = seq![NodeView::HostText { span: t.span }] + rest;
                        assert forall|j: int| 0 <= j < all.len() implies node_sound(
                            s,
                            #[trigger] all[j],
                        ) by {
                            if j > 0 {
                                assert(all[j] == rest[j - 1]);
                            }
                        }
                    },
                }
            },
            TokenKind::BlockOpen => {
                lemma_block_sound(s, tokens, i + 1);
                match block(tokens, i + 1) {
                    Err(e) => {},
                    Ok((statements, next)) => {
                        lemma_block_advances(tokens, i + 1);
                        lemma_nodes_sound(s, tokens, next);
                        match nodes(tokens, next) {
                            Err(e) => {},
                            Ok(rest) => {
                                let all = seq![NodeView::ScriptBlock { statements }] + rest;
                                assert forall|j: int| 0 <= j < all.len() implies node_sound(
                                    s,
                                    #[trigger] all[j],
                                ) by {
                                    if j > 0 {
                                        assert(all[j] == rest[j - 1]);
                                    }
                                }
                            },
                        }
                    },
                }
            },
            _ => {},
        }
    }
}

/// The literals of a sound expression over well-encoded text are well
/// encoded.
pub proof fn lemma_expr_valid(s: Seq<u8>, e: Expr)
    requires
        valid_utf8(s),
        expr_sound(s, e),
    ensures
        lower_expr(s, e) is Ok ==> literals_valid(lower_expr(s, e)->Ok_0) && names_valid(
            lower_expr(s, e)->Ok_0,
        ),
{
    match e {
        Expr::VarRef { span } => {
            lemma_word_valid(s, span);
        },
        Expr::StringLiteral { span } => {
            let body = literal_body(s, span);
            assert(body =~= s.subrange(span.start + 1, span.end - 1));
            lemma_valid_between(s, span.start + 1, span.end - 1);
            let empty = Seq::<u8>::empty();
            assert(empty =~= empty + body.subrange(0, 0));
            lemma_pieces_valid(body, 0, empty, empty, 0);
        },
    }
}

/// Whether the literals of every macro are well encoded.
pub open spec fn macros_valid(macros: Seq<MacroView>) -> bool {
    forall|k: int|
        0 <= k < macros.len() ==> literals_valid((#[trigger] macros[k]).pattern) && literals_valid(
            macros[k].body,
        )
}

/// Whether the name of every macro, and every name in it, is well encoded.
pub open spec fn macros_named(macros: Seq<MacroView>) -> bool {
    forall|k: int|
        0 <= k < macros.len() ==> valid_utf8((#[trigger] macros[k]).name) && names_valid(
            macros[k].pattern,
        ) && names_valid(macros[k].body)
}

/// Whether the name that a semantic error holds, if it holds one, is well
/// encoded.
pub open spec fn error_named(e: SemanticErrorView) -> bool {
    match e {
        SemanticErrorView::DuplicateMacro { name, first_span, dup_span } => valid_utf8(name),
        SemanticErrorView::UnknownMacro { name, span } => valid_utf8(name),
        SemanticErrorView::MalformedInterpolation { span } => true,
    }
}

/// Whether every name of `p`, in its instructions and in its macros, is well
/// encoded.
pub open spec fn program_named(p: IrView) -> bool {
    names_valid(p.instrs) && macros_named(p.macros)
}

/// The first pass keeps the literals of the macro table well encoded.
pub proof fn lemma_collect_valid(
    s: Seq<u8>,
    statements: Seq<Statement>,
    i: int,
    macros: Seq<MacroView>,
    base: int,
)
    requires
        valid_utf8(s),
        statements_sound(s, statements),
        macros_valid(macros),
        macros_named(macros),
    ensures
        match collect(s, statements, i, macros, base) {
            Ok(table) => macros_valid(table) && macros_named(table),
            Err(e) => error_named(e),
        },
    decreases statements.len() - i,
{
    if 0 <= i < statements.len() {
        assert(statement_sound(s, statements[i]));
        match statements[i] {
            Statement::MacroDef { name, pattern, body } => {
                let text = sigil_name(s, name);
                lemma_word_valid(s, name);
                if find_macro(macros, text, base) is None {
                    lemma_expr_valid(s, pattern);
                    lemma_expr_valid(s, body);
                    match lower_expr(s, pattern) {
                        Err(e) => {},
                        Ok(p) => match lower_expr(s, body) {
                            Err(e) => {},
                            Ok(b) => {
                                let entry = MacroView { name: text, pattern: p, body: b, span: name };
                                let next = macros.push(entry);
                                assert forall|k: int| 0 <= k < next.len() implies literals_valid(
                                    (#[trigger] next[k]).pattern,
                                ) && literals_valid(next[k].body) by {
                                    if k < macros.len() {
                                        assert(next[k] == macros[k]);
                                    }
                                }
                                assert forall|k: int| 0 <= k < next.len() implies valid_utf8(
                                    (#[trigger] next[k]).name,
                                ) && names_valid(next[k].pattern) && names_valid(next[k].body) by {
                                    if k < macros.len() {
                                        assert(next[k] == macros[k]);
                                    }
                                }
                                lemma_collect_valid(s, statements, i + 1, next, base);
                            },
                        },
                    }
                }
            },
            _ => {
                lemma_collect_valid(s, statements, i + 1, macros, base);
            },
        }
    }
}

/// The literals of the instructions of a sound block are well encoded.
pub proof fn lemma_statements_valid(
    s: Seq<u8>,
    statements: Seq<Statement>,
    i: int,
    macros: Seq<MacroView>,
    base: int,
)
    requires
        valid_utf8(s),
        statements_sound(s, statements),
    ensures
        match lower_statements(s, statements, i, macros, base) {
            Ok(instrs) => literals_valid(instrs) && names_valid(instrs),
            Err(e) => error_named(e),
        },
    decreases statements.len() - i,
{
    if 0 <= i < statements.len() {
        assert(statement_sound(s, statements[i]));
        match statements[i] {
            Statement::Expression { expr } => {
                lemma_expr_valid(s, expr);
            },
            Statement::ArraySelect { array } => {
                lemma_word_valid(s, array);
            },
            Statement::PipeChain { array, target } => {
                lemma_word_valid(s, array);
                lemma_word_valid(s, target);
            },
            _ => {},
        }
        lemma_statements_valid(s, statements, i + 1, macros, base);
        match lower_statement(s, statements[i], macros, base) {
            Err(e) => {},
            Ok(first) => match lower_statements(s, statements, i + 1, macros, base) {
                Err(e) => {},
                Ok(rest) => {
                    lemma_literals_valid_add(first, rest);
                    lemma_names_valid_add(first, rest);
                },
            },
        }
    }
}

/// Lowering a sound tree over well-encoded text keeps the literals and the
/// names of the program well encoded, and so is the name in its error.
pub proof fn lemma_nodes_valid(s: Seq<u8>, tree: Seq<NodeView>, i: int, program: IrView)
    requires
        valid_utf8(s),
        tree_sound(s, tree),
        program_valid(program),
        program_named(program),
    ensures
        match lower_nodes(s, tree, i, program) {
            Ok(next) => program_valid(next) && program_named(next),
            Err(e) => error_named(e),
        },
    decreases tree.len() - i,
{
    if 0 <= i < tree.len() {
        assert(node_sound(s, tree[i]));
        match tree[i] {
            NodeView::HostText { span } => {
                let text = span_text(s, span);
                assert(text =~= s.subrange(span.start as int, span.end as int));
                lemma_valid_between(s, span.start as int, span.end as int);
                let literal = seq![InstrView::EmitLiteral { text }];
                assert(literals_valid(literal));
                assert(names_valid(literal));
                lemma_literals_valid_add(program.instrs, literal);
                lemma_names_valid_add(program.instrs, literal);
                assert(program.instrs + literal =~= program.instrs.push(literal[0]));
                lemma_nodes_valid(
                    s,
                    tree,
                    i + 1,
                    IrView { instrs: program.instrs.push(literal[0]), macros: program.macros },
                );
            },
            NodeView::ScriptBlock { statements } => {
                let base = program.macros.len() as int;
                assert(macros_valid(program.macros));
                lemma_collect_valid(s, statements, 0, program.macros, base);
                match collect(s, statements, 0, program.macros, base) {
                    Err(e) => {},
                    Ok(macros) => {
                        lemma_statements_valid(s, statements, 0, macros, base);
                        match lower_statements(s, statements, 0, macros, base) {
                            Err(e) => {},
                            Ok(instrs) => {
                                lemma_literals_valid_add(program.instrs, instrs);
                                lemma_names_valid_add(program.instrs, instrs);
                                lemma_nodes_valid(
                                    s,
                                    tree,
                                    i + 1,
                                    IrView { instrs: program.instrs + instrs, macros },
                                );
                            },
                        }
                    },
                }
            },
        }
    }
}

/// Rendering keeps UTF-8: where the template is well encoded, and so is
/// every variable and every element of every array, what rendering writes
/// is well encoded, whether it ends in an error or not.
pub proof fn lemma_rendering_valid(source: Seq<u8>, env: Env)
    requires
        source.len() <= usize::MAX,
        valid_utf8(source),
        env_valid(env),
    ensures
        valid_utf8(rendering(source, env).output),
{
    lemma_lex_sound(source, 0, false);
    lemma_nodes_sound(source, lex(source), 0);
    match parse_spec(lex(source)) {
        Err(e) => {},
        Ok(tree) => {
            let empty = IrView { instrs: Seq::empty(), macros: Seq::empty() };
            lemma_nodes_valid(source, tree, 0, empty);
            match lower(source, tree) {
                Err(e) => {},
                Ok(program) => {
                    lemma_execute_valid(program, env);
                },
            }
        },
    }
}

/// A line ends at a line feed or at the end of the text.
pub proof fn lemma_line_end_stops(s: Seq<u8>, pos: int)
    requires
        0 <= pos <= s.len(),
    ensures
        line_end(s, pos) == s.len() || s[line_end(s, pos)] == '\n' as u8,
    decreases s.len() - pos,
{
    if pos < s.len() && s[pos] != '\n' as u8 {
        lemma_line_end_stops(s, pos + 1);
    }
}

/// The lines of well-encoded text are well encoded.
pub proof fn lemma_lines_valid(s: Seq<u8>, pos: int)
    requires
        valid_utf8(s),
        cut(s, pos),
    ensures
        forall|k: int| 0 <= k < lines_from(s, pos).len() ==> valid_utf8(#[trigger] lines_from(s, pos)[k]),
    decreases s.len() - pos,
{
    if pos < s.len() {
        let end = line_end(s, pos);
        lemma_line_end_bounds(s, pos);
        lemma_line_end_stops(s, pos);
        let next = if end < s.len() {
            end + 1
        } else {
            end
        };
        if pos < end < s.len() && s[end - 1] == '\r' as u8 {
            lemma_valid_between(s, pos, end - 1);
        } else {
            lemma_valid_between(s, pos, end);
        }
        lemma_lines_valid(s, next);
        let rest = lines_from(s, next);
        let all = seq![line_at(s, pos, end)] + rest;
        assert forall|k: int| 0 <= k < all.len() implies valid_utf8(#[trigger] all[k]) by {
            if k > 0 {
                assert(all[k] == rest[k - 1]);
            }
        }
    }
}

/// A session whose variables and arrays are well encoded renders with
/// well-encoded values.
pub proof fn lemma_session_env_valid(vars: Seq<(Seq<u8>, Seq<u8>)>, arrays: Seq<(Seq<u8>, Seq<u8>)>)
    requires
        forall|i: int| 0 <= i < vars.len() ==> valid_utf8((#[trigger] vars[i]).1),
        forall|i: int| 0 <= i < arrays.len() ==> valid_utf8((#[trigger] arrays[i]).1),
    ensures
        env_valid(session_env(vars, arrays)),
{
    let env = session_env(vars, arrays);
    let split = split_arrays(arrays);
    assert forall|name: Seq<u8>| env.variables.contains_key(name) implies valid_utf8(
        #[trigger] env.variables[name],
    ) by {
        let i = key_index(vars, name);
        assert(valid_utf8(vars[i].1));
    }
    assert forall|name: Seq<u8>, k: int|
        env.arrays.contains_key(name) && 0 <= k < env.arrays[name].len() implies valid_utf8(
        #[trigger] env.arrays[name][k],
    ) by {
        let i = key_index(split, name);
        assert(valid_utf8(arrays[i].1));
        lemma_lines_valid(arrays[i].1, 0);
        assert(split[i].1 == lines(arrays[i].1));
    }
}

/// The output of a run of a session is UTF-8: where the template compiles,
/// and the template, the variables and the arrays are well encoded, the
/// output is well encoded.
pub proof fn lemma_shown_output_valid(
    code: Seq<u8>,
    vars: Seq<(Seq<u8>, Seq<u8>)>,
    arrays: Seq<(Seq<u8>, Seq<u8>)>,
)
    requires
        code.len() <= usize::MAX,
        valid_utf8(code),
        compile(code) is Ok,
        forall|i: int| 0 <= i < vars.len() ==> valid_utf8((#[trigger] vars[i]).1),
        forall|i: int| 0 <= i < arrays.len() ==> valid_utf8((#[trigger] arrays[i]).1),
    ensures
        valid_utf8(shown_output(code, session_env(vars, arrays))),
{
    lemma_session_env_valid(vars, arrays);
    lemma_rendering_valid(code, session_env(vars, arrays));
}

} // verus!
