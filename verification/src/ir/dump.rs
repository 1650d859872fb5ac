//! A readable listing of a program, for debugging.

use vstd::prelude::*;
use vstd::string::*;
use crate::ir::instr::{Instr, InstrView, IrProgram, IrView, Macro, MacroView, instrs_view, macros_view};
use crate::text::{emit, repeat};

verus! {

/// One instruction as a listing shows it.
pub open spec fn instr_text(instr: InstrView) -> Seq<u8> {
    match instr {
        InstrView::EmitLiteral { text } => "EmitLiteral \"".spec_bytes() + text + "\"".spec_bytes(),
        InstrView::EmitVar { name } => "EmitVar ".spec_bytes() + name,
        InstrView::BeginArrayIter { array } => "BeginArrayIter ".spec_bytes() + array,
        InstrView::EndArrayIter => "EndArrayIter".spec_bytes(),
        InstrView::BeginMacroCall { name, index } => "BeginMacroCall ".spec_bytes() + name,
        InstrView::EndMacroCall => "EndMacroCall".spec_bytes(),
    }
}

/// Whether an instruction opens a bracket.
pub open spec fn opens(instr: InstrView) -> bool {
    instr is BeginArrayIter || instr is BeginMacroCall
}

/// Whether an instruction closes a bracket.
pub open spec fn closes(instr: InstrView) -> bool {
    instr is EndArrayIter || instr is EndMacroCall
}

/// The depth at which an instruction is shown, `depth` brackets being open
/// before it: a closing instruction stands under the one that opened.
pub open spec fn shown_depth(instr: InstrView, depth: nat) -> nat {
    if closes(instr) && depth > 0 {
        (depth - 1) as nat
    } else {
        depth
    }
}

/// How many brackets are open behind an instruction.
pub open spec fn depth_after(instr: InstrView, depth: nat) -> nat {
    if opens(instr) {
        depth + 1
    } else {
        shown_depth(instr, depth)
    }
}

/// The listing of `instrs[i..]`: one line for each instruction, in order,
/// indented by two spaces for each open bracket.
pub open spec fn code_text(instrs: Seq<InstrView>, i: int, depth: nat) -> Seq<u8>
    decreases instrs.len() - i,
{
    if i < 0 || i >= instrs.len() {
        Seq::empty()
    } else {
        repeat(' ' as u8, 2 * shown_depth(instrs[i], depth)) + instr_text(instrs[i]) + "\n".spec_bytes()
            + code_text(instrs, i + 1, depth_after(instrs[i], depth))
    }
}

/// The listing of one macro: its name, its pattern and its body.
pub open spec fn macro_text(m: MacroView) -> Seq<u8> {
    "  @".spec_bytes() + m.name + "\n".spec_bytes() + "    pattern:\n".spec_bytes() + code_text(
        m.pattern,
        0,
        3,
    ) + "    body:\n".spec_bytes() + code_text(m.body, 0, 3)
}

/// The listing of `macros[i..]`, in order of definition.
pub open spec fn macros_text(macros: Seq<MacroView>, i: int) -> Seq<u8>
    decreases macros.len() - i,
{
    if i < 0 || i >= macros.len() {
        Seq::empty()
    } else {
        macro_text(macros[i]) + macros_text(macros, i + 1)
    }
}

/// The listing of a program: the macro table, then the instructions.
pub open spec fn ir_text(p: IrView) -> Seq<u8> {
    "macros:\n".spec_bytes() + macros_text(p.macros, 0) + "program:\n".spec_bytes() + code_text(
        p.instrs,
        0,
        1,
    )
}

fn indent(sink: &mut Vec<u8>, depth: u128)
    ensures
        final(sink)@ == old(sink)@ + repeat(' ' as u8, 2 * (depth as nat)),
{
    let mut i: u128 = 0;
    assert(sink@ =~= old(sink)@ + repeat(' ' as u8, 0));
    while i < depth
        invariant
            i <= depth,
            sink@ == old(sink)@ + repeat(' ' as u8, 2 * (i as nat)),
        decreases depth - i,
    {
        sink.push(' ' as u8);
        sink.push(' ' as u8);
        i += 1;
        assert(sink@ =~= old(sink)@ + repeat(' ' as u8, 2 * (i as nat)));
    }
}

fn write_instr(sink: &mut Vec<u8>, instr: &Instr)
    ensures
        final(sink)@ == old(sink)@ + instr_text(instr@),
{
    match instr {
        Instr::EmitLiteral { text } => {
            emit(sink, "EmitLiteral \"".as_bytes());
            emit(sink, text.as_slice());
            emit(sink, "\"".as_bytes());
        },
        Instr::EmitVar { name } => {
            emit(sink, "EmitVar ".as_bytes());
            emit(sink, name.as_slice());
        },
        Instr::BeginArrayIter { array } => {
            emit(sink, "BeginArrayIter ".as_bytes());
            emit(sink, array.as_slice());
        },
        Instr::EndArrayIter => {
            emit(sink, "EndArrayIter".as_bytes());
        },
        Instr::BeginMacroCall { name, index } => {
            emit(sink, "BeginMacroCall ".as_bytes());
            emit(sink, name.as_slice());
        },
        Instr::EndMacroCall => {
            emit(sink, "EndMacroCall".as_bytes());
        },
    }
    assert(sink@ =~= old(sink)@ + instr_text(instr@));
}

fn write_code(sink: &mut Vec<u8>, instrs: &Vec<Instr>, depth: u128)
    requires
        depth <= 3,
    ensures
        final(sink)@ == old(sink)@ + code_text(instrs_view(instrs@), 0, depth as nat),
{
    let ghost code = instrs_view(instrs@);
    let ghost mut written: Seq<u8> = Seq::empty();
    let mut open: u128 = depth;
    let mut i: usize = 0;
    assert(sink@ =~= old(sink)@ + written);
    while i < instrs.len()
        invariant
            i <= instrs@.len(),
            open <= depth + i,
            depth <= 3,
            code == instrs_view(instrs@),
            sink@ == old(sink)@ + written,
            code_text(code, 0, depth as nat) == written + code_text(code, i as int, open as nat),
        decreases instrs@.len() - i,
    {
        assert(code[i as int] == instrs@[i as int]@);
        let instr = &instrs[i];
        let closing = match instr {
            Instr::EndArrayIter => true,
            Instr::EndMacroCall => true,
            _ => false,
        };
        let opening = match instr {
            Instr::BeginArrayIter { array } => true,
            Instr::BeginMacroCall { name, index } => true,
            _ => false,
        };
        let shown = if closing && open > 0 { open - 1 } else { open };
        let ghost before = sink@;
        indent(sink, shown);
        write_instr(sink, instr);
        emit(sink, "\n".as_bytes());
        let next = if opening { open + 1 } else { shown };
        proof {
            let line = repeat(' ' as u8, 2 * (shown as nat)) + instr_text(code[i as int]) + "\n".spec_bytes();
            let rest = code_text(code, i + 1, next as nat);
            assert(sink@ =~= before + line);
            assert(written + (line + rest) =~= (written + line) + rest);
            assert(code_text(code, i as int, open as nat) =~= line + rest);
            assert(sink@ =~= old(sink)@ + (written + line));
            written = written + line;
        }
        open = next;
        i += 1;
    }
    assert(written + Seq::<u8>::empty() =~= written);
}

fn write_macro(sink: &mut Vec<u8>, m: &Macro)
    ensures
        final(sink)@ == old(sink)@ + macro_text(m@),
{
    emit(sink, "  @".as_bytes());
    emit(sink, m.name.as_slice());
    emit(sink, "\n".as_bytes());
    emit(sink, "    pattern:\n".as_bytes());
    write_code(sink, &m.pattern, 3);
    emit(sink, "    body:\n".as_bytes());
    write_code(sink, &m.body, 3);
    assert(sink@ =~= old(sink)@ + macro_text(m@));
}

/// Writes a listing of `program`: its macro table in order of definition,
/// then its instructions in program order, each indented by the brackets
/// that are open around it.
pub fn dump_ir(sink: &mut Vec<u8>, program: &IrProgram)
    ensures
        final(sink)@ == old(sink)@ + ir_text(program@),
{
    emit(sink, "macros:\n".as_bytes());
    let ghost table = macros_view(program.macros@);
    let ghost start = sink@;
    let ghost mut written: Seq<u8> = Seq::empty();
    let mut i: usize = 0;
    assert(sink@ =~= start + written);
    while i < program.macros.len()
        invariant
            i <= program.macros@.len(),
            table == macros_view(program.macros@),
            sink@ == start + written,
            macros_text(table, 0) == written + macros_text(table, i as int),
        decreases program.macros@.len() - i,
    {
        assert(table[i as int] == program.macros@[i as int]@);
        write_macro(sink, &program.macros[i]);
        proof {
            let one = macro_text(table[i as int]);
            let rest = macros_text(table, i + 1);
            assert(written + (one + rest) =~= (written + one) + rest);
            assert(sink@ =~= start + (written + one));
            written = written + one;
        }
        i += 1;
    }
    assert(written + Seq::<u8>::empty() =~= written);
    emit(sink, "program:\n".as_bytes());
    write_code(sink, &program.instrs, 1);
    assert(sink@ =~= old(sink)@ + ir_text(program@));
}

} // verus!
