//! The whole pipeline: from a template and the values it is rendered with to
//! the rendered text.

use vstd::prelude::*;
use crate::ir::instr::{InstrView, IrProgram, IrView, SemanticError, SemanticErrorView};
use crate::ir::lower::{gen_ir, lemma_duplicate_spans, lower, lower_nodes};
use crate::syntax::lexer::{lex, lex_from, token_at};
use crate::syntax::parser::{ast, lemma_ast_rising, nodes, parse_spec};
use crate::syntax::token::{span_at, span_text, Token, TokenKind};
use crate::syntax::tree::{NodeView, SyntaxError};
use crate::text::{host_end, opens_block};
use crate::vm::machine::Vm;
use crate::vm::semantics::{
    done, emitted, execute, run_range, then, Env, RuntimeError, RuntimeErrorView,
};

verus! {

/// What rendering a template can fail with: one variant for each stage.
#[derive(Clone, Debug, PartialEq, Eq)]
pub enum RenderError {
    /// The template does not parse.
    Syntax(SyntaxError),
    /// The template parses, but uses its macros wrongly.
    Semantic(SemanticError),
    /// The program of the template failed while it ran.
    Runtime(RuntimeError),
}

/// The mathematical value of a `RenderError`.
pub enum RenderErrorView {
    Syntax(SyntaxError),
    Semantic(SemanticErrorView),
    Runtime(RuntimeErrorView),
}

impl View for RenderError {
    type V = RenderErrorView;

    open spec fn view(&self) -> RenderErrorView {
        match self {
            RenderError::Syntax(e) => RenderErrorView::Syntax(*e),
            RenderError::Semantic(e) => RenderErrorView::Semantic(e@),
            RenderError::Runtime(e) => RenderErrorView::Runtime(e@),
        }
    }
}

/// The program of a template, or the error of the first stage that fails.
pub open spec fn compile(source: Seq<u8>) -> Result<IrView, RenderErrorView> {
    match parse_spec(lex(source)) {
        Err(e) => Err(RenderErrorView::Syntax(e)),
        Ok(tree) => match lower(source, tree) {
            Err(e) => Err(RenderErrorView::Semantic(e)),
            Ok(program) => Ok(program),
        },
    }
}

/// What rendering does: the text it writes and the error that ended it.
pub struct Rendering {
    pub output: Seq<u8>,
    pub error: Option<RenderErrorView>,
}

/// What rendering `source` against `env` does. A template that does not
/// compile writes nothing; one that fails while it runs leaves what it wrote
/// before the failure.
pub open spec fn rendering(source: Seq<u8>, env: Env) -> Rendering {
    match compile(source) {
        Err(e) => Rendering { output: Seq::empty(), error: Some(e) },
        Ok(program) => {
            let outcome = execute(program, env);
            Rendering {
                output: outcome.output,
                error: match outcome.error {
                    Some(e) => Some(RenderErrorView::Runtime(e)),
                    None => None,
                },
            }
        },
    }
}

/// The mathematical value of what `compile_template` returns.
pub open spec fn compiled_view(r: Result<IrProgram, RenderError>) -> Result<IrView, RenderErrorView> {
    match r {
        Ok(program) => Ok(program@),
        Err(e) => Err(e@),
    }
}

/// The error of a result, if it is one.
pub open spec fn render_error_view(r: Result<(), RenderError>) -> Option<RenderErrorView> {
    match r {
        Ok(()) => None,
        Err(e) => Some(e@),
    }
}

/// Compiles a template to a program: lexing, parsing and lowering, each
/// stage returning its error in place of going on.
pub fn compile_template(source: &[u8]) -> (r: Result<IrProgram, RenderError>)
    ensures
        compiled_view(r) == compile(source@),
        r is Ok ==> r->Ok_0.wf(),
{
    let tree = match ast(source) {
        Ok(tree) => tree,
        Err(e) => {
            return Err(RenderError::Syntax(e));
        },
    };
    match gen_ir(source, tree) {
        Ok(program) => Ok(program),
        Err(e) => Err(RenderError::Semantic(e)),
    }
}

/// Renders a template against the values of `vm`, writing to `sink`.
pub fn render(source: &[u8], vm: &Vm, sink: &mut Vec<u8>) -> (r: Result<(), RenderError>)
    requires
        vm.wf(),
    ensures
        final(sink)@ == old(sink)@ + rendering(source@, vm.env()).output,
        render_error_view(r) == rendering(source@, vm.env()).error,
{
    let program = match compile_template(source) {
        Ok(program) => program,
        Err(e) => {
            assert(sink@ =~= old(sink)@ + Seq::<u8>::empty());
            return Err(e);
        },
    };
    match vm.run(sink, &program) {
        Ok(()) => Ok(()),
        Err(e) => Err(RenderError::Runtime(e)),
    }
}

/// Text without `{{` is one run of host text.
pub proof fn lemma_host_end_without_blocks(s: Seq<u8>, pos: int)
    requires
        0 <= pos <= s.len(),
        forall|i: int| !opens_block(s, i),
    ensures
        host_end(s, pos) == s.len(),
    decreases s.len() - pos,
{
    if pos < s.len() {
        lemma_host_end_without_blocks(s, pos + 1);
    }
}

/// Host text passes through: a template that holds no `{{` renders to
/// itself, whatever the variables and arrays are.
pub proof fn lemma_host_text_round_trip(source: Seq<u8>, env: Env)
    requires
        source.len() <= usize::MAX,
        forall|i: int| !opens_block(source, i),
    ensures
        rendering(source, env) == (Rendering { output: source, error: None }),
{
    let n = source.len() as int;
    let end = Token { kind: TokenKind::EndOfInput, span: span_at(source, n, n) };
    let empty = IrView { instrs: Seq::empty(), macros: Seq::empty() };
    if n == 0 {
        assert(lex(source) == seq![end]);
        assert(parse_spec(lex(source)) == Ok::<Seq<NodeView>, SyntaxError>(Seq::empty()));
        assert(lower(source, Seq::empty()) == Ok::<IrView, SemanticErrorView>(empty));
        assert(execute(empty, env) == done());
        assert(source =~= Seq::<u8>::empty());
    } else {
        lemma_host_end_without_blocks(source, 0);
        let text = Token { kind: TokenKind::HostText, span: span_at(source, 0, n) };
        assert(token_at(source, 0, false) == (TokenKind::HostText, n));
        assert(lex_from(source, n, false) == seq![end]);
        assert(lex(source) == seq![text] + seq![end]);
        let tokens = lex(source);
        assert(tokens =~= seq![text, end]);
        assert(nodes(tokens, 2) == Ok::<Seq<NodeView>, SyntaxError>(Seq::empty()));
        assert(nodes(tokens, 1) == Ok::<Seq<NodeView>, SyntaxError>(Seq::empty()));
        let node = NodeView::HostText { span: text.span };
        assert(nodes(tokens, 0) == Ok::<Seq<NodeView>, SyntaxError>(seq![node] + Seq::empty()));
        let tree = seq![node];
        assert(seq![node] + Seq::<NodeView>::empty() =~= tree);
        assert(span_text(source, text.span) =~= source);
        let literal = InstrView::EmitLiteral { text: source };
        let program = IrView { instrs: seq![literal], macros: Seq::empty() };
        assert(empty.instrs.push(literal) =~= seq![literal]);
        assert(lower_nodes(source, tree, 1, program) == Ok::<IrView, SemanticErrorView>(program));
        assert(lower(source, tree) == Ok::<IrView, SemanticErrorView>(program));
        let scope = Seq::<(Seq<u8>, Seq<u8>)>::empty();
        assert(run_range(program, env, scope, 1, 1) == done());
        assert(run_range(program, env, scope, 0, 1) == then(emitted(source), done()));
        assert(source + Seq::<u8>::empty() =~= source);
    }
}

/// A duplicate macro is reported with two places: where a template fails
/// with `DuplicateMacro`, the first definition starts before the second, so
/// the two spans differ.
pub proof fn lemma_duplicate_spans_differ(source: Seq<u8>)
    requires
        source.len() <= usize::MAX,
    ensures
        match compile(source) {
            Err(
                RenderErrorView::Semantic(
                    SemanticErrorView::DuplicateMacro { name, first_span, dup_span },
                ),
            ) => first_span.start < dup_span.start && first_span != dup_span,
            _ => true,
        },
{
    lemma_ast_rising(source);
    match parse_spec(lex(source)) {
        Err(e) => {},
        Ok(tree) => {
            lemma_duplicate_spans(
                source,
                tree,
                0,
                IrView { instrs: Seq::empty(), macros: Seq::empty() },
            );
        },
    }
}

} // verus!
