//! Instructions, macros and programs, with their mathematical values.

use vstd::prelude::*;
use crate::syntax::token::Span;

verus! {

/// One instruction of a program.
#[derive(Clone, Debug, PartialEq, Eq)]
pub enum Instr {
    /// Write `text` as it is.
    EmitLiteral { text: Vec<u8> },
    /// Write the value bound to `name`.
    EmitVar { name: Vec<u8> },
    /// Start of a bracket that runs once for each element of `array`.
    BeginArrayIter { array: Vec<u8> },
    /// End of the innermost open array bracket.
    EndArrayIter,
    /// Apply the macro at `index` of the macro table, called `name`.
    BeginMacroCall { name: Vec<u8>, index: usize },
    /// End of a macro call.
    EndMacroCall,
}

/// The mathematical value of an `Instr`.
pub enum InstrView {
    EmitLiteral { text: Seq<u8> },
    EmitVar { name: Seq<u8> },
    BeginArrayIter { array: Seq<u8> },
    EndArrayIter,
    BeginMacroCall { name: Seq<u8>, index: usize },
    EndMacroCall,
}

impl View for Instr {
    type V = InstrView;

    open spec fn view(&self) -> InstrView {
        match self {
            Instr::EmitLiteral { text } => InstrView::EmitLiteral { text: text@ },
            Instr::EmitVar { name } => InstrView::EmitVar { name: name@ },
            Instr::BeginArrayIter { array } => InstrView::BeginArrayIter { array: array@ },
            Instr::EndArrayIter => InstrView::EndArrayIter,
            Instr::BeginMacroCall { name, index } => InstrView::BeginMacroCall {
                name: name@,
                index: *index,
            },
            Instr::EndMacroCall => InstrView::EndMacroCall,
        }
    }
}

/// The values of a sequence of instructions.
pub open spec fn instrs_view(instrs: Seq<Instr>) -> Seq<InstrView> {
    Seq::new(instrs.len(), |i: int| instrs[i]@)
}

/// The values of a sequence with one more instruction.
pub proof fn lemma_instrs_view_push(instrs: Seq<Instr>, last: Instr)
    ensures
        instrs_view(instrs.push(last)) == instrs_view(instrs).push(last@),
{
    assert(instrs_view(instrs.push(last)) =~= instrs_view(instrs).push(last@));
}

/// The values of two sequences of instructions, one behind the other.
pub proof fn lemma_instrs_view_add(first: Seq<Instr>, second: Seq<Instr>)
    ensures
        instrs_view(first + second) == instrs_view(first) + instrs_view(second),
{
    assert(instrs_view(first + second) =~= instrs_view(first) + instrs_view(second));
}

/// A macro: a pattern that is rendered for each application, and a body that
/// is written with `_` bound to the rendered pattern.
#[derive(Clone, Debug, PartialEq, Eq)]
pub struct Macro {
    pub name: Vec<u8>,
    pub pattern: Vec<Instr>,
    pub body: Vec<Instr>,
    /// Where the macro was defined: the span of its sigil and name.
    pub span: Span,
}

/// The mathematical value of a `Macro`.
pub struct MacroView {
    pub name: Seq<u8>,
    pub pattern: Seq<InstrView>,
    pub body: Seq<InstrView>,
    pub span: Span,
}

impl View for Macro {
    type V = MacroView;

    open spec fn view(&self) -> MacroView {
        MacroView {
            name: self.name@,
            pattern: instrs_view(self.pattern@),
            body: instrs_view(self.body@),
            span: self.span,
        }
    }
}

/// The values of a sequence of macros.
pub open spec fn macros_view(macros: Seq<Macro>) -> Seq<MacroView> {
    Seq::new(macros.len(), |i: int| macros[i]@)
}

/// The values of a sequence with one more macro.
pub proof fn lemma_macros_view_push(macros: Seq<Macro>, last: Macro)
    ensures
        macros_view(macros.push(last)) == macros_view(macros).push(last@),
{
    assert(macros_view(macros.push(last)) =~= macros_view(macros).push(last@));
}

/// The mathematical value of a program.
pub struct IrView {
    pub instrs: Seq<InstrView>,
    pub macros: Seq<MacroView>,
}

/// Whether `instr` refers to the macro table `macros` correctly: a macro call
/// names an entry that exists and is called as the instruction says.
pub open spec fn resolved(instr: InstrView, macros: Seq<MacroView>) -> bool {
    match instr {
        InstrView::BeginMacroCall { name, index } => index < macros.len() && macros[index as int].name
            == name,
        _ => true,
    }
}

/// Whether every macro call among `instrs` is resolved in `macros`.
pub open spec fn instrs_resolved(instrs: Seq<InstrView>, macros: Seq<MacroView>) -> bool {
    forall|i: int| 0 <= i < instrs.len() ==> resolved(#[trigger] instrs[i], macros)
}

/// Whether every macro call of `program` is resolved.
pub open spec fn all_resolved(program: IrView) -> bool {
    instrs_resolved(program.instrs, program.macros)
}

/// Two resolved sequences are resolved one behind the other.
pub proof fn lemma_resolved_add(first: Seq<InstrView>, second: Seq<InstrView>, macros: Seq<MacroView>)
    requires
        instrs_resolved(first, macros),
        instrs_resolved(second, macros),
    ensures
        instrs_resolved(first + second, macros),
{
    assert forall|i: int| 0 <= i < (first + second).len() implies resolved(
        #[trigger] (first + second)[i],
        macros,
    ) by {
        if i < first.len() {
            assert((first + second)[i] == first[i]);
        } else {
            assert((first + second)[i] == second[i - first.len()]);
        }
    }
}

/// Calls stay resolved when entries are added behind the macro table.
pub proof fn lemma_resolved_grow(instrs: Seq<InstrView>, old_table: Seq<MacroView>, table: Seq<MacroView>)
    requires
        instrs_resolved(instrs, old_table),
        old_table.len() <= table.len(),
        table.subrange(0, old_table.len() as int) == old_table,
    ensures
        instrs_resolved(instrs, table),
{
    assert forall|i: int| 0 <= i < instrs.len() implies resolved(#[trigger] instrs[i], table) by {
        assert(resolved(instrs[i], old_table));
        match instrs[i] {
            InstrView::BeginMacroCall { name, index } => {
                assert(table.subrange(0, old_table.len() as int)[index as int] == table[index as int]);
            },
            _ => {},
        }
    }
}

/// A program: instructions in source order, and the macros they call.
#[derive(Clone, Debug, PartialEq, Eq)]
pub struct IrProgram {
    pub instrs: Vec<Instr>,
    pub macros: Vec<Macro>,
}

impl View for IrProgram {
    type V = IrView;

    open spec fn view(&self) -> IrView {
        IrView { instrs: instrs_view(self.instrs@), macros: macros_view(self.macros@) }
    }
}

impl IrProgram {
    /// Every macro call of the program is resolved.
    pub open spec fn wf(&self) -> bool {
        all_resolved(self@)
    }
}

/// What lowering can fail with.
#[derive(Clone, Debug, PartialEq, Eq)]
pub enum SemanticError {
    /// A block defines `name` twice.
    DuplicateMacro { name: Vec<u8>, first_span: Span, dup_span: Span },
    /// A block refers to a macro that it does not define.
    UnknownMacro { name: Vec<u8>, span: Span },
    /// A string literal holds `$(` that no name and `)` follow.
    MalformedInterpolation { span: Span },
}

/// The mathematical value of a `SemanticError`.
pub enum SemanticErrorView {
    DuplicateMacro { name: Seq<u8>, first_span: Span, dup_span: Span },
    UnknownMacro { name: Seq<u8>, span: Span },
    MalformedInterpolation { span: Span },
}

impl View for SemanticError {
    type V = SemanticErrorView;

    open spec fn view(&self) -> SemanticErrorView {
        match self {
            SemanticError::DuplicateMacro { name, first_span, dup_span } => {
                SemanticErrorView::DuplicateMacro {
                    name: name@,
                    first_span: *first_span,
                    dup_span: *dup_span,
                }
            },
            SemanticError::UnknownMacro { name, span } => SemanticErrorView::UnknownMacro {
                name: name@,
                span: *span,
            },
            SemanticError::MalformedInterpolation { span } => {
                SemanticErrorView::MalformedInterpolation { span: *span }
            },
        }
    }
}

} // verus!
