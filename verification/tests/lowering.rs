use pipa_playground::ir::instr::{Instr, IrProgram, Macro, SemanticError};
use pipa_playground::ir::{dump_ir, gen_ir};
use pipa_playground::syntax::ast;
use pipa_playground::syntax::token::Span;

fn sp(start: usize, end: usize, line: usize, column: usize) -> Span {
    Span { start, end, line, column }
}

fn lower(source: &[u8]) -> Result<IrProgram, SemanticError> {
    gen_ir(source, ast(source).unwrap())
}

fn lit(text: &[u8]) -> Instr {
    Instr::EmitLiteral { text: text.to_vec() }
}

fn var(name: &[u8]) -> Instr {
    Instr::EmitVar { name: name.to_vec() }
}

#[test]
fn host_text_becomes_a_literal() {
    let p = lower(b"hello").unwrap();
    assert_eq!(p, IrProgram { instrs: vec![lit(b"hello")], macros: vec![] });
}

#[test]
fn interpolation_becomes_literals_and_variables() {
    let p = lower(b"{{ \"a $(x)b$(y)\" }}").unwrap();
    assert_eq!(p.instrs, vec![lit(b"a "), var(b"x"), lit(b"b"), var(b"y")]);
}

#[test]
fn escaped_quote_becomes_a_quote() {
    let p = lower(b"{{ \"\\\"q\\\"\" }}").unwrap();
    assert_eq!(p.instrs, vec![lit(b"\"q\"")]);
}

#[test]
fn other_backslashes_and_dollars_stay() {
    let p = lower(b"{{ \"a\\n$b $ (c)\" }}").unwrap();
    assert_eq!(p.instrs, vec![lit(b"a\\n$b $ (c)")]);
}

#[test]
fn empty_string_lowers_to_nothing() {
    let p = lower(b"{{ \"\" }}").unwrap();
    assert_eq!(p.instrs, vec![]);
}

#[test]
fn bare_name_becomes_a_variable() {
    let p = lower(b"{{ name }}").unwrap();
    assert_eq!(p.instrs, vec![var(b"name")]);
}

#[test]
fn comments_and_definitions_emit_no_instruction() {
    let p = lower(b"{{ # c\n@m a | b\n}}").unwrap();
    assert_eq!(p.instrs, vec![]);
    assert_eq!(
        p.macros,
        vec![Macro {
            name: b"m".to_vec(),
            pattern: vec![var(b"a")],
            body: vec![var(b"b")],
            span: sp(7, 9, 1, 0),
        }]
    );
}

#[test]
fn selection_alone_is_an_empty_bracket() {
    let p = lower(b"{{ L[:] }}").unwrap();
    assert_eq!(p.instrs, vec![Instr::BeginArrayIter { array: b"L".to_vec() }, Instr::EndArrayIter]);
}

#[test]
fn pipe_becomes_a_call_inside_a_bracket() {
    let p = lower(b"{{ @m \"$(_item_)\" | \"<$(_)>\"\nL[:] | ?m }}").unwrap();
    assert_eq!(
        p.instrs,
        vec![
            Instr::BeginArrayIter { array: b"L".to_vec() },
            Instr::BeginMacroCall { name: b"m".to_vec(), index: 0 },
            Instr::EndMacroCall,
            Instr::EndArrayIter,
        ]
    );
    assert_eq!(p.macros.len(), 1);
    assert_eq!(p.macros[0].pattern, vec![var(b"_item_")]);
    assert_eq!(p.macros[0].body, vec![lit(b"<"), var(b"_"), lit(b">")]);
}

#[test]
fn instruction_order_is_source_order() {
    let p = lower(b"a{{ x\n\"b\" }}c{{ y }}").unwrap();
    assert_eq!(p.instrs, vec![lit(b"a"), var(b"x"), lit(b"b"), lit(b"c"), var(b"y")]);
}

#[test]
fn forward_reference_resolves() {
    let p = lower(b"{{ L[:] | ?m\n@m a | b }}").unwrap();
    assert_eq!(p.instrs[1], Instr::BeginMacroCall { name: b"m".to_vec(), index: 0 });
}

#[test]
fn reference_picks_the_macro_of_its_own_block() {
    let p = lower(b"{{ @m a | b }}{{ @n a | b\n@m c | d\nL[:] | ?m }}").unwrap();
    assert_eq!(p.macros.len(), 3);
    assert_eq!(p.instrs[1], Instr::BeginMacroCall { name: b"m".to_vec(), index: 2 });
}

#[test]
fn unknown_macro_is_a_semantic_error() {
    assert_eq!(
        lower(b"{{ L[:] | ?nope }}"),
        Err(SemanticError::UnknownMacro { name: b"nope".to_vec(), span: sp(10, 15, 0, 10) })
    );
}

#[test]
fn macro_of_another_block_is_unknown() {
    assert_eq!(
        lower(b"{{ @m a | b }}{{ L[:] | ?m }}"),
        Err(SemanticError::UnknownMacro { name: b"m".to_vec(), span: sp(24, 26, 0, 24) })
    );
}

#[test]
fn duplicate_macro_reports_both_spans() {
    assert_eq!(
        lower(b"{{\n@m \"a\" | \"b\"\n@m \"c\" | \"d\"\n}}"),
        Err(SemanticError::DuplicateMacro {
            name: b"m".to_vec(),
            first_span: sp(3, 5, 1, 0),
            dup_span: sp(16, 18, 2, 0),
        })
    );
}

#[test]
fn same_name_in_two_blocks_is_no_duplicate() {
    let p = lower(b"{{ @m a | b }}{{ @m c | d }}").unwrap();
    assert_eq!(p.macros.len(), 2);
}

#[test]
fn duplicate_is_found_before_an_unknown_reference_above_it() {
    let r = lower(b"{{ L[:] | ?x\n@m a | b\n@m c | d }}");
    assert!(matches!(r, Err(SemanticError::DuplicateMacro { .. })));
}

#[test]
fn malformed_interpolation_is_a_semantic_error() {
    assert_eq!(
        lower(b"{{ \"ab$(\" }}"),
        Err(SemanticError::MalformedInterpolation { span: sp(6, 8, 0, 6) })
    );
    assert_eq!(
        lower(b"x\n{{ \"$(1a)\" }}"),
        Err(SemanticError::MalformedInterpolation { span: sp(6, 8, 1, 4) })
    );
    assert!(matches!(
        lower(b"{{ \"$(a b)\" }}"),
        Err(SemanticError::MalformedInterpolation { .. })
    ));
    assert!(matches!(lower(b"{{ \"$()\" }}"), Err(SemanticError::MalformedInterpolation { .. })));
    assert!(matches!(
        lower(b"{{ @m \"$(\" | a }}"),
        Err(SemanticError::MalformedInterpolation { .. })
    ));
}

#[test]
fn undefined_variable_is_no_lowering_error() {
    assert!(lower(b"{{ \"$(nobody)\" nobody }}").is_ok());
}

#[test]
fn dump_shows_macros_then_program_with_nesting() {
    let p = lower(b"hi{{\n@m \"$(_item_)\" | \"<$(_)>\"\nL[:] | ?m\n}}").unwrap();
    let mut sink = b"# ".to_vec();
    dump_ir(&mut sink, &p);
    let expected = "# macros:\n  @m\n    pattern:\n      EmitVar _item_\n    body:\n      EmitLiteral \"<\"\n      EmitVar _\n      EmitLiteral \">\"\nprogram:\n  EmitLiteral \"hi\"\n  BeginArrayIter L\n    BeginMacroCall m\n    EndMacroCall\n  EndArrayIter\n";
    assert_eq!(String::from_utf8(sink).unwrap(), expected);
}

#[test]
fn dump_of_an_empty_program() {
    let p = lower(b"").unwrap();
    let mut sink = Vec::new();
    dump_ir(&mut sink, &p);
    assert_eq!(sink, b"macros:\nprogram:\n");
}
